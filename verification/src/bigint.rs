//! Whole numbers of any size, written in base one thousand.

use crate::reader::as_chars;
use crate::reader::decimal;
use crate::reader::string_push;
use crate::writer::digits_of;
use crate::reader::is_digit;
use crate::vectors::reversed_copy;
use vstd::prelude::*;
use vstd::string::StringSliceAdditionalSpecFns;

verus! {

/// The base in which the numbers are written.
pub const BASE: i32 = 1000;

/// One thousand to the power `n`.
pub open spec fn pow1000(n: nat) -> int
    decreases n,
{
    if n == 0 {
        1
    } else {
        1000 * pow1000((n - 1) as nat)
    }
}

/// The number that the limbs write, highest limb first.
pub open spec fn limbs_value(s: Seq<i32>) -> int
    decreases s.len(),
{
    if s.len() == 0 {
        0
    } else {
        limbs_value(s.drop_last()) * 1000 + s.last()
    }
}

/// The number that the limbs write, lowest limb first.
pub open spec fn low_first_value(s: Seq<i32>) -> int
    decreases s.len(),
{
    if s.len() == 0 {
        0
    } else {
        s[0] + 1000 * low_first_value(s.drop_first())
    }
}

/// Every limb lies between zero and the base.
pub open spec fn limbs_ok(s: Seq<i32>) -> bool {
    forall|i: int| 0 <= i < s.len() ==> 0 <= #[trigger] s[i] < 1000
}

/// The number that the lowest `i` limbs write.
pub open spec fn tail_value(s: Seq<i32>, i: int) -> int {
    limbs_value(s.skip(s.len() - i))
}

/// Every power of the base is at least one.
pub proof fn lemma_pow1000_positive(n: nat)
    ensures
        pow1000(n) >= 1,
    decreases n,
{
    if n > 0 {
        lemma_pow1000_positive((n - 1) as nat);
    }
}

/// The powers of the base do not fall.
pub proof fn lemma_pow1000_grows(a: nat, b: nat)
    requires
        a <= b,
    ensures
        pow1000(a) <= pow1000(b),
    decreases b,
{
    if a < b {
        lemma_pow1000_grows(a, (b - 1) as nat);
        lemma_pow1000_positive((b - 1) as nat);
    }
}

/// A limb before the others counts by the power of their number.
pub proof fn lemma_value_prepend(d: i32, t: Seq<i32>)
    ensures
        limbs_value(seq![d] + t) == d * pow1000(t.len()) + limbs_value(t),
    decreases t.len(),
{
    let all = seq![d] + t;
    if t.len() == 0 {
        assert(all.drop_last() =~= Seq::<i32>::empty());
        assert(limbs_value(all.drop_last()) == 0);
    } else {
        assert(all.drop_last() =~= seq![d] + t.drop_last());
        lemma_value_prepend(d, t.drop_last());
        assert(all.last() == t.last());
        assert((d * pow1000(t.drop_last().len()) + limbs_value(t.drop_last())) * 1000 + t.last() == d * (1000
            * pow1000(t.drop_last().len())) + (limbs_value(t.drop_last()) * 1000 + t.last()))
            by (nonlinear_arith);
    }
}

/// One more limb from the low end adds that limb times its power.
pub proof fn lemma_tail_next(s: Seq<i32>, i: int)
    requires
        0 <= i < s.len(),
    ensures
        tail_value(s, i + 1) == tail_value(s, i) + s[s.len() - 1 - i] * pow1000(i as nat),
{
    let t = s.skip(s.len() - i);
    let d = s[s.len() - 1 - i];
    assert(s.skip(s.len() - i - 1) =~= seq![d] + t);
    lemma_value_prepend(d, t);
}

/// The value of no limbs is zero, and the value of all limbs is the value
/// of the number.
pub proof fn lemma_tail_ends(s: Seq<i32>)
    ensures
        tail_value(s, 0) == 0,
        tail_value(s, s.len() as int) == limbs_value(s),
{
    assert(s.skip(s.len() as int) =~= Seq::<i32>::empty());
    assert(s.skip(0) =~= s);
}

/// One more limb at the high end adds that limb times its power.
pub proof fn lemma_low_first_push(s: Seq<i32>, d: i32)
    ensures
        low_first_value(s.push(d)) == low_first_value(s) + d * pow1000(s.len()),
    decreases s.len(),
{
    if s.len() == 0 {
        assert(s.push(d).drop_first() =~= Seq::<i32>::empty());
        assert(low_first_value(s.push(d).drop_first()) == 0);
    } else {
        assert(s.push(d).drop_first() =~= s.drop_first().push(d));
        lemma_low_first_push(s.drop_first(), d);
        assert(s[0] + 1000 * (low_first_value(s.drop_first()) + d * pow1000(s.drop_first().len())) == (s[0]
            + 1000 * low_first_value(s.drop_first())) + d * (1000 * pow1000(s.drop_first().len())))
            by (nonlinear_arith);
    }
}

/// Turning the limbs round turns the reading round.
pub proof fn lemma_reverse_value(s: Seq<i32>)
    ensures
        limbs_value(s.reverse()) == low_first_value(s),
    decreases s.len(),
{
    if s.len() > 0 {
        let r = s.reverse();
        assert(r.drop_last() =~= s.drop_first().reverse());
        assert(r.last() == s[0]);
        lemma_reverse_value(s.drop_first());
    }
}

/// A number of `n` limbs is below one thousand to the power `n`.
pub proof fn lemma_value_bound(s: Seq<i32>)
    requires
        limbs_ok(s),
    ensures
        0 <= limbs_value(s) < pow1000(s.len()),
        0 <= low_first_value(s) < pow1000(s.len()),
    decreases s.len(),
{
    if s.len() > 0 {
        assert(limbs_ok(s.drop_last())) by {
            assert forall|i: int| 0 <= i < s.drop_last().len() implies 0 <= #[trigger] s.drop_last()[i]
                < 1000 by {
                assert(s.drop_last()[i] == s[i]);
            }
        }
        lemma_value_bound(s.drop_last());
        assert(limbs_ok(s.drop_first())) by {
            assert forall|i: int| 0 <= i < s.drop_first().len() implies 0 <= #[trigger] s.drop_first()[i]
                < 1000 by {
                assert(s.drop_first()[i] == s[i + 1]);
            }
        }
        lemma_value_bound(s.drop_first());
        assert(0 <= s[s.len() - 1] < 1000);
        assert(0 <= s[0] < 1000);
    }
}

/// The highest limb is not zero exactly when the number reaches the power
/// of the base that the number of the other limbs names.
pub proof fn lemma_top_limb(s: Seq<i32>)
    requires
        limbs_ok(s),
        s.len() >= 1,
    ensures
        s[0] > 0 <==> limbs_value(s) >= pow1000((s.len() - 1) as nat),
{
    let rest = s.drop_first();
    assert(limbs_ok(rest)) by {
        assert forall|i: int| 0 <= i < rest.len() implies 0 <= #[trigger] rest[i] < 1000 by {
            assert(rest[i] == s[i + 1]);
        }
    }
    assert(s =~= seq![s[0]] + rest);
    lemma_value_prepend(s[0], rest);
    lemma_value_bound(rest);
    let q = pow1000(rest.len());
    assert(0 <= s[0] < 1000);
    if s[0] > 0 {
        assert(s[0] * q >= q) by (nonlinear_arith)
            requires
                s[0] >= 1,
                q >= 0,
        ;
    } else {
        assert(s[0] * q == 0) by (nonlinear_arith)
            requires
                s[0] == 0,
        ;
    }
}

/// Limbs below the base are fixed by their number and the number that
/// they write.
pub proof fn lemma_limbs_unique(a: Seq<i32>, b: Seq<i32>)
    requires
        limbs_ok(a),
        limbs_ok(b),
        a.len() == b.len(),
        limbs_value(a) == limbs_value(b),
    ensures
        a == b,
    decreases a.len(),
{
    if a.len() > 0 {
        let fa = a.drop_last();
        let fb = b.drop_last();
        assert(limbs_ok(fa)) by {
            assert forall|i: int| 0 <= i < fa.len() implies 0 <= #[trigger] fa[i] < 1000 by {
                assert(fa[i] == a[i]);
            }
        }
        assert(limbs_ok(fb)) by {
            assert forall|i: int| 0 <= i < fb.len() implies 0 <= #[trigger] fb[i] < 1000 by {
                assert(fb[i] == b[i]);
            }
        }
        assert(0 <= a[a.len() - 1] < 1000);
        assert(0 <= b[b.len() - 1] < 1000);
        let x = limbs_value(fa);
        let y = limbs_value(fb);
        assert(x == y && a.last() == b.last()) by (nonlinear_arith)
            requires
                x * 1000 + a.last() == y * 1000 + b.last(),
                0 <= a.last() < 1000,
                0 <= b.last() < 1000,
        ;
        lemma_limbs_unique(fa, fb);
        assert(a =~= fa.push(a.last()));
        assert(b =~= fb.push(b.last()));
    } else {
        assert(a =~= b);
    }
}

/// The number of limbs of the sum of two numbers: as many as the longer
/// one has, and one more where the sum does not fit them.
pub open spec fn sum_limbs(a: Seq<i32>, b: Seq<i32>) -> int {
    let longer = if a.len() > b.len() {
        a.len() as int
    } else {
        b.len() as int
    };
    if limbs_value(a) + limbs_value(b) >= pow1000(longer as nat) {
        longer + 1
    } else {
        longer
    }
}

/// What the subtraction limb by limb gives for `big`, which has no fewer
/// limbs than `small`: the difference, and where that is negative, the
/// difference with one thousand to the power of the number of limbs added.
pub open spec fn wrapped_difference(big: Seq<i32>, small: Seq<i32>) -> int {
    limbs_value(big) - limbs_value(small) + if limbs_value(big) < limbs_value(small) {
        pow1000(big.len())
    } else {
        0
    }
}

/// The number of limbs of that difference: as many as `big` has, and one
/// fewer where `big` has more limbs than `small` and its highest limb
/// comes out as zero. No other zero limb is dropped.
pub open spec fn difference_limbs(big: Seq<i32>, small: Seq<i32>) -> int {
    if big.len() > small.len() && wrapped_difference(big, small) < pow1000((big.len() - 1) as nat) {
        big.len() - 1
    } else {
        big.len() as int
    }
}

/// A whole number that is not negative: its limbs, highest first.
#[derive(Clone, Debug)]
pub struct BigUInteger {
    pub number: Vec<i32>,
}

impl BigUInteger {
    /// The number that the limbs write.
    pub open spec fn value(&self) -> int {
        limbs_value(self.number@)
    }

    /// Every limb is below the base.
    pub open spec fn wf(&self) -> bool {
        limbs_ok(self.number@)
    }

    /// The number has a limb, and more than one only if the highest is
    /// not zero.
    pub open spec fn is_normal(&self) -> bool {
        &&& self.wf()
        &&& self.number@.len() >= 1
        &&& self.number@.len() > 1 ==> self.number@[0] > 0
    }

    /// The sum, in as many limbs as the longer number has, and one more
    /// where the sum does not fit them.
    pub fn add(self, other: BigUInteger) -> (r: BigUInteger)
        requires
            self.wf(),
            other.wf(),
        ensures
            r.wf(),
            r.value() == self.value() + other.value(),
            r.number@.len() == sum_limbs(self.number@, other.number@),
            self.is_normal() && other.is_normal() ==> r.is_normal(),
    {
        let (short, long) = if self.number.len() > other.number.len() {
            (other, self)
        } else {
            (self, other)
        };
        let ghost a = short.number@;
        let ghost b = long.number@;
        let digit_difference: usize = long.number.len() - short.number.len();
        let mut number_output: Vec<i32> = Vec::new();
        let mut carry: i32 = 0;
        let mut i: usize = short.number.len();
        proof {
            lemma_tail_ends(a);
            lemma_tail_ends(b);
        }
        while i > 0
            invariant
                i <= a.len(),
                a == short.number@,
                b == long.number@,
                limbs_ok(a),
                limbs_ok(b),
                digit_difference == b.len() - a.len(),
                a.len() <= b.len(),
                0 <= carry <= 1,
                limbs_ok(number_output@),
                number_output@.len() == a.len() - i,
                low_first_value(number_output@) + carry * pow1000((a.len() - i) as nat) == tail_value(
                    a,
                    a.len() - i,
                ) + tail_value(b, a.len() - i),
            decreases i,
        {
            let ghost p = (a.len() - i) as int;
            i -= 1;
            assert(b.len() == long.number.len());
            assert(i + digit_difference < b.len());
            let at: usize = i + digit_difference;
            assert(0 <= short.number@[i as int] < 1000);
            assert(0 <= long.number@[at as int] < 1000);
            let sum = short.number[i] + long.number[at] + carry;
            proof {
                lemma_tail_next(a, p);
                lemma_tail_next(b, p);
                lemma_low_first_push(number_output@, sum % 1000);
                let x = a[a.len() - 1 - p];
                let y = b[b.len() - 1 - p];
                let q = pow1000(p as nat);
                assert(sum == (sum % 1000) + 1000 * (sum / 1000));
                assert((sum % 1000) * q + (sum / 1000) * (1000 * q) == (x + y + carry) * q) by (nonlinear_arith)
                    requires
                        sum == (sum % 1000) + 1000 * (sum / 1000),
                        sum == x + y + carry,
                ;
                assert((x + y + carry) * q == x * q + y * q + carry * q) by (nonlinear_arith);
            }
            number_output.push(sum % BASE);
            carry = sum / BASE;
        }
        let mut i: usize = digit_difference;
        while i > 0
            invariant
                i <= digit_difference,
                a == short.number@,
                b == long.number@,
                limbs_ok(a),
                limbs_ok(b),
                digit_difference == b.len() - a.len(),
                0 <= carry <= 1,
                limbs_ok(number_output@),
                number_output@.len() == b.len() - i,
                low_first_value(number_output@) + carry * pow1000((b.len() - i) as nat) == limbs_value(a)
                    + tail_value(b, b.len() - i),
            decreases i,
        {
            let ghost p = (b.len() - i) as int;
            i -= 1;
            let sum = long.number[i] + carry;
            proof {
                lemma_tail_next(b, p);
                lemma_low_first_push(number_output@, sum % 1000);
                let y = b[b.len() - 1 - p];
                let q = pow1000(p as nat);
                assert(sum == (sum % 1000) + 1000 * (sum / 1000));
                assert((sum % 1000) * q + (sum / 1000) * (1000 * q) == (y + carry) * q) by (nonlinear_arith)
                    requires
                        sum == (sum % 1000) + 1000 * (sum / 1000),
                        sum == y + carry,
                ;
                assert((y + carry) * q == y * q + carry * q) by (nonlinear_arith);
            }
            number_output.push(sum % BASE);
            carry = sum / BASE;
        }
        proof {
            lemma_tail_ends(b);
            lemma_value_bound(number_output@);
            lemma_pow1000_positive(b.len());
            if carry == 0 {
                assert(carry * pow1000(b.len()) == 0) by (nonlinear_arith)
                    requires
                        carry == 0,
                ;
            } else {
                assert(carry * pow1000(b.len()) == pow1000(b.len())) by (nonlinear_arith)
                    requires
                        carry == 1,
                ;
            }
        }
        if carry != 0 {
            proof {
                lemma_low_first_push(number_output@, carry);
            }
            number_output.push(carry);
        }
        proof {
            lemma_reverse_value(number_output@);
        }
        let r = BigUInteger { number: reversed_copy(&number_output) };
        proof {
            assert forall|j: int| 0 <= j < r.number@.len() implies 0 <= #[trigger] r.number@[j] < 1000 by {
                assert(r.number@[j] == number_output@[number_output@.len() - 1 - j]);
            }
            if self.is_normal() && other.is_normal() {
                if r.number@.len() > 1 {
                    lemma_top_limb(r.number@);
                    lemma_value_bound(a);
                    if b.len() > 1 {
                        lemma_top_limb(b);
                    }
                    lemma_pow1000_grows((b.len() - 1) as nat, (r.number@.len() - 1) as nat);
                }
            }
        }
        r
    }
}

/// How two rows of limbs of one length stand to each other, limb by limb
/// from the highest: `-1` where the first differing limb is smaller in the
/// first row, `1` where it is larger, `0` where the rows are equal.
pub open spec fn limbwise(a: Seq<i32>, b: Seq<i32>) -> int
    decreases a.len(),
{
    if a.len() == 0 || b.len() == 0 {
        0
    } else if a[0] < b[0] {
        -1
    } else if a[0] > b[0] {
        1
    } else {
        limbwise(a.drop_first(), b.drop_first())
    }
}

/// How two rows of limbs stand to each other: the shorter row first, rows
/// of one length limb by limb.
pub open spec fn limb_order(a: Seq<i32>, b: Seq<i32>) -> int {
    if a.len() < b.len() {
        -1
    } else if a.len() > b.len() {
        1
    } else {
        limbwise(a, b)
    }
}

/// The sign of a number: `-1`, `0` or `1`.
pub open spec fn sign_of(x: int) -> int {
    if x < 0 {
        -1
    } else if x > 0 {
        1
    } else {
        0
    }
}

/// Rows of limbs of one length stand to each other as their numbers do.
pub proof fn lemma_limbwise_is_order(a: Seq<i32>, b: Seq<i32>)
    requires
        a.len() == b.len(),
        limbs_ok(a),
        limbs_ok(b),
    ensures
        limbwise(a, b) == sign_of(limbs_value(a) - limbs_value(b)),
    decreases a.len(),
{
    if a.len() > 0 {
        let ra = a.drop_first();
        let rb = b.drop_first();
        assert(limbs_ok(ra)) by {
            assert forall|i: int| 0 <= i < ra.len() implies 0 <= #[trigger] ra[i] < 1000 by {
                assert(ra[i] == a[i + 1]);
            }
        }
        assert(limbs_ok(rb)) by {
            assert forall|i: int| 0 <= i < rb.len() implies 0 <= #[trigger] rb[i] < 1000 by {
                assert(rb[i] == b[i + 1]);
            }
        }
        assert(a =~= seq![a[0]] + ra);
        assert(b =~= seq![b[0]] + rb);
        lemma_value_prepend(a[0], ra);
        lemma_value_prepend(b[0], rb);
        lemma_value_bound(ra);
        lemma_value_bound(rb);
        lemma_limbwise_is_order(ra, rb);
        let q = pow1000(ra.len());
        let x = a[0] as int;
        let y = b[0] as int;
        if x < y {
            assert(x * q + q <= y * q) by (nonlinear_arith)
                requires
                    x < y,
                    q >= 0,
            ;
        } else if x > y {
            assert(y * q + q <= x * q) by (nonlinear_arith)
                requires
                    y < x,
                    q >= 0,
            ;
        }
    }
}

/// Numbers written without needless zero limbs stand to each other as
/// their rows of limbs do.
pub proof fn lemma_limb_order_is_order(a: Seq<i32>, b: Seq<i32>)
    requires
        limbs_ok(a),
        limbs_ok(b),
        a.len() >= 1,
        b.len() >= 1,
        a.len() > 1 ==> a[0] > 0,
        b.len() > 1 ==> b[0] > 0,
    ensures
        limb_order(a, b) == sign_of(limbs_value(a) - limbs_value(b)),
{
    if a.len() == b.len() {
        lemma_limbwise_is_order(a, b);
    } else if a.len() < b.len() {
        lemma_longer_is_larger(a, b);
    } else {
        lemma_longer_is_larger(b, a);
    }
}

/// A number whose highest limb is not zero is larger than a number of
/// fewer limbs.
pub proof fn lemma_longer_is_larger(a: Seq<i32>, b: Seq<i32>)
    requires
        limbs_ok(a),
        limbs_ok(b),
        a.len() < b.len(),
        b[0] > 0,
    ensures
        limbs_value(a) < limbs_value(b),
{
    let rb = b.drop_first();
    assert(limbs_ok(rb)) by {
        assert forall|i: int| 0 <= i < rb.len() implies 0 <= #[trigger] rb[i] < 1000 by {
            assert(rb[i] == b[i + 1]);
        }
    }
    assert(b =~= seq![b[0]] + rb);
    lemma_value_prepend(b[0], rb);
    lemma_value_bound(rb);
    lemma_value_bound(a);
    lemma_pow1000_grows(a.len(), rb.len());
    let q = pow1000(rb.len());
    let y = b[0] as int;
    assert(y * q >= q) by (nonlinear_arith)
        requires
            y >= 1,
            q >= 0,
    ;
}

impl BigUInteger {
    /// How this number stands to the other by their rows of limbs: `-1`,
    /// `0` or `1`. For numbers written without needless zero limbs this is
    /// how the numbers themselves stand to each other.
    pub fn compare(&self, other: &BigUInteger) -> (r: i8)
        ensures
            r == limb_order(self.number@, other.number@),
            self.is_normal() && other.is_normal() ==> r == sign_of(self.value() - other.value()),
    {
        proof {
            if self.is_normal() && other.is_normal() {
                lemma_limb_order_is_order(self.number@, other.number@);
            }
        }
        if self.number.len() < other.number.len() {
            -1
        } else if self.number.len() > other.number.len() {
            1
        } else {
            let size: usize = self.number.len();
            let mut i: usize = 0;
            proof {
                assert(self.number@.skip(0) =~= self.number@);
                assert(other.number@.skip(0) =~= other.number@);
            }
            while i < size
                invariant
                    i <= size,
                    size == self.number@.len(),
                    size == other.number@.len(),
                    limbwise(self.number@, other.number@) == limbwise(
                        self.number@.skip(i as int),
                        other.number@.skip(i as int),
                    ),
                    self.is_normal() && other.is_normal() ==> limb_order(self.number@, other.number@)
                        == sign_of(self.value() - other.value()),
                decreases size - i,
            {
                proof {
                    assert(self.number@.skip(i as int).drop_first() =~= self.number@.skip(i + 1));
                    assert(other.number@.skip(i as int).drop_first() =~= other.number@.skip(i + 1));
                }
                if self.number[i] < other.number[i] {
                    return -1;
                } else if self.number[i] > other.number[i] {
                    return 1;
                }
                i += 1;
            }
            0
        }
    }

    /// The difference between the number with more limbs, or this one
    /// where both have as many, and the other; where that is negative, one
    /// thousand to the power of the number of limbs is added to it.
    pub fn sub(self, other: BigUInteger) -> (r: BigUInteger)
        requires
            self.wf(),
            other.wf(),
        ensures
            r.wf(),
            self.number@.len() < other.number@.len() ==> r.value() == wrapped_difference(
                other.number@,
                self.number@,
            ) && r.number@.len() == difference_limbs(other.number@, self.number@),
            self.number@.len() >= other.number@.len() ==> r.value() == wrapped_difference(
                self.number@,
                other.number@,
            ) && r.number@.len() == difference_limbs(self.number@, other.number@),
    {
        let (big, small) = if self.number.len() < other.number.len() {
            (other, self)
        } else {
            (self, other)
        };
        let ghost a = big.number@;
        let ghost b = small.number@;
        let digit_difference: usize = big.number.len() - small.number.len();
        let mut number_output: Vec<i32> = Vec::new();
        let mut carry: i32 = 0;
        let mut i: usize = small.number.len();
        proof {
            lemma_tail_ends(a);
            lemma_tail_ends(b);
        }
        while i > 0
            invariant
                i <= b.len(),
                a == big.number@,
                b == small.number@,
                limbs_ok(a),
                limbs_ok(b),
                digit_difference == a.len() - b.len(),
                b.len() <= a.len(),
                0 <= carry <= 1,
                limbs_ok(number_output@),
                number_output@.len() == b.len() - i,
                low_first_value(number_output@) - carry * pow1000((b.len() - i) as nat) == tail_value(
                    a,
                    b.len() - i,
                ) - tail_value(b, b.len() - i),
            decreases i,
        {
            let ghost p = (b.len() - i) as int;
            i -= 1;
            assert(a.len() == big.number.len());
            assert(i + digit_difference < a.len());
            let at: usize = i + digit_difference;
            assert(0 <= big.number@[at as int] < 1000);
            assert(0 <= small.number@[i as int] < 1000);
            let mut sub: i32 = big.number[at] - small.number[i] - carry;
            let ghost old_carry = carry;
            let ghost raw = sub as int;
            if sub < 0 {
                sub += BASE;
                carry = 1;
            } else {
                carry = 0;
            }
            proof {
                lemma_tail_next(a, p);
                lemma_tail_next(b, p);
                lemma_low_first_push(number_output@, sub);
                let x = a[a.len() - 1 - p];
                let y = b[b.len() - 1 - p];
                let q = pow1000(p as nat);
                assert(sub * q - carry * (1000 * q) == (x - y - old_carry) * q) by (nonlinear_arith)
                    requires
                        sub - 1000 * carry == raw,
                        raw == x - y - old_carry,
                ;
                assert((x - y - old_carry) * q == x * q - y * q - old_carry * q) by (nonlinear_arith);
            }
            number_output.push(sub);
        }
        let mut i: usize = digit_difference;
        while i > 0
            invariant
                i <= digit_difference,
                a == big.number@,
                b == small.number@,
                limbs_ok(a),
                limbs_ok(b),
                digit_difference == a.len() - b.len(),
                0 <= carry <= 1,
                limbs_ok(number_output@),
                number_output@.len() <= a.len() - i,
                i > 0 ==> number_output@.len() == a.len() - i,
                i == digit_difference ==> number_output@.len() == a.len() - i,
                i == 0 && digit_difference > 0 ==> number_output@.len() == a.len() - 1 || (number_output@.len()
                    == a.len() && number_output@.last() > 0),
                low_first_value(number_output@) - carry * pow1000((a.len() - i) as nat) == tail_value(
                    a,
                    a.len() - i,
                ) - limbs_value(b),
            decreases i,
        {
            let ghost p = (a.len() - i) as int;
            let ghost q = pow1000(p as nat);
            i -= 1;
            assert(a.len() == big.number.len());
            assert(0 <= big.number@[i as int] < 1000);
            proof {
                lemma_tail_next(a, p);
            }
            if big.number[i] == 0 && carry != 0 {
                proof {
                    lemma_low_first_push(number_output@, 999);
                    assert(999 * q - 1 * (1000 * q) == 0 * q - 1 * q) by (nonlinear_arith);
                }
                number_output.push(BASE - 1);
            } else {
                let sub = big.number[i] - carry;
                let ghost old_carry = carry;
                proof {
                    lemma_low_first_push(number_output@, sub);
                    let x = a[a.len() - 1 - p];
                    assert(sub * q == x * q - old_carry * q) by (nonlinear_arith)
                        requires
                            sub == x - old_carry,
                    ;
                }
                if i > 0 || sub > 0 {
                    number_output.push(sub);
                } else {
                    proof {
                        assert(sub * q == 0) by (nonlinear_arith)
                            requires
                                sub == 0,
                        ;
                    }
                }
                carry = 0;
            }
        }
        proof {
            lemma_tail_ends(a);
            lemma_reverse_value(number_output@);
            lemma_value_bound(number_output@);
            lemma_value_bound(a);
            lemma_value_bound(b);
            lemma_pow1000_positive(a.len());
            lemma_pow1000_grows(number_output@.len(), a.len());
            let q = pow1000(a.len());
            if carry == 0 {
                assert(carry * q == 0) by (nonlinear_arith)
                    requires
                        carry == 0,
                ;
            } else {
                assert(carry * q == q) by (nonlinear_arith)
                    requires
                        carry == 1,
                ;
            }
        }
        let r = BigUInteger { number: reversed_copy(&number_output) };
        proof {
            assert forall|j: int| 0 <= j < r.number@.len() implies 0 <= #[trigger] r.number@[j] < 1000 by {
                assert(r.number@[j] == number_output@[number_output@.len() - 1 - j]);
            }
            assert(r.value() == wrapped_difference(a, b));
            if digit_difference > 0 {
                if r.number@.len() == a.len() {
                    assert(r.number@[0] == number_output@.last());
                    lemma_top_limb(r.number@);
                } else {
                    lemma_value_bound(r.number@);
                }
            }
        }
        r
    }
}

/// Ten to the power `n`.
pub open spec fn pow10(n: nat) -> int
    decreases n,
{
    if n == 0 {
        1
    } else {
        10 * pow10((n - 1) as nat)
    }
}

/// What a row of digits writes is what its beginning writes, moved up by
/// the length of the rest, plus what the rest writes.
pub proof fn lemma_decimal_split(s: Seq<u8>, i: int, j: int)
    requires
        0 <= i <= j <= s.len(),
    ensures
        decimal(s.take(j)) == decimal(s.take(i)) * pow10((j - i) as nat) + decimal(s.subrange(i, j)),
    decreases j - i,
{
    if i == j {
        assert(s.subrange(i, j) =~= Seq::<u8>::empty());
    } else {
        lemma_decimal_split(s, i, j - 1);
        assert(s.take(j).drop_last() =~= s.take(j - 1));
        assert(s.subrange(i, j).drop_last() =~= s.subrange(i, j - 1));
        let d = (s[j - 1] - 48) as nat;
        let a = decimal(s.take(i)) as int;
        let q = pow10((j - 1 - i) as nat);
        let c = decimal(s.subrange(i, j - 1)) as int;
        assert((a * q + c) * 10 + d == a * (10 * q) + (c * 10 + d)) by (nonlinear_arith);
    }
}

/// Zeros in front of a row of digits do not change what it writes.
pub proof fn lemma_decimal_leading_zero(s: Seq<u8>)
    requires
        s.len() >= 1,
        s[0] == 48,
    ensures
        decimal(s) == decimal(s.drop_first()),
    decreases s.len(),
{
    if s.len() == 1 {
        assert(s.drop_last() =~= Seq::<u8>::empty());
        assert(s.drop_first() =~= Seq::<u8>::empty());
    } else {
        lemma_decimal_leading_zero(s.drop_last());
        assert(s.drop_last().drop_first() =~= s.drop_first().drop_last());
    }
}

/// A row of digits that starts with another digit than zero writes a
/// number that is not zero.
pub proof fn lemma_decimal_positive(s: Seq<u8>)
    requires
        s.len() >= 1,
        forall|i: int| 0 <= i < s.len() ==> is_digit(#[trigger] s[i]),
        s[0] != 48,
    ensures
        decimal(s) >= 1,
    decreases s.len(),
{
    if s.len() > 1 {
        lemma_decimal_positive(s.drop_last());
    } else {
        assert(s.drop_last() =~= Seq::<u8>::empty());
    }
    assert(is_digit(s[s.len() - 1]));
    assert(is_digit(s[0]));
}

/// A row of digits without needless zeros in front is the row of digits of
/// the number it writes.
pub proof fn lemma_digits_unique(s: Seq<u8>)
    requires
        s.len() >= 1,
        forall|i: int| 0 <= i < s.len() ==> is_digit(#[trigger] s[i]),
        s.len() > 1 ==> s[0] != 48,
    ensures
        s == digits_of(decimal(s)),
    decreases s.len(),
{
    assert(is_digit(s[s.len() - 1]));
    if s.len() == 1 {
        assert(s.drop_last() =~= Seq::<u8>::empty());
        assert(decimal(s.drop_last()) == 0);
        assert(s =~= digits_of(decimal(s)));
    } else {
        let front = s.drop_last();
        lemma_decimal_positive(front);
        lemma_digits_unique(front);
        let v = decimal(s);
        assert(v == decimal(front) * 10 + (s.last() - 48));
        assert(v / 10 == decimal(front) && v % 10 == (s.last() - 48));
        assert(s =~= front.push(s.last()));
    }
}

/// What the three digits of a limb write is the limb.
pub open spec fn limb_digits(x: i32) -> Seq<u8> {
    seq![(48 + x / 100) as u8, (48 + (x / 10) % 10) as u8, (48 + x % 10) as u8]
}

/// The digits of all limbs, three for each, highest limb first.
pub open spec fn all_digits(s: Seq<i32>) -> Seq<u8>
    decreases s.len(),
{
    if s.len() == 0 {
        Seq::empty()
    } else {
        all_digits(s.drop_last()) + limb_digits(s.last())
    }
}

/// The digits of the limbs, three for each, write the value of the limbs.
pub proof fn lemma_all_digits(s: Seq<i32>)
    requires
        limbs_ok(s),
    ensures
        all_digits(s).len() == 3 * s.len(),
        forall|i: int| 0 <= i < all_digits(s).len() ==> is_digit(#[trigger] all_digits(s)[i]),
        decimal(all_digits(s)) == limbs_value(s),
    decreases s.len(),
{
    if s.len() > 0 {
        let front = s.drop_last();
        assert(limbs_ok(front)) by {
            assert forall|i: int| 0 <= i < front.len() implies 0 <= #[trigger] front[i] < 1000 by {
                assert(front[i] == s[i]);
            }
        }
        lemma_all_digits(front);
        let x = s.last();
        assert(0 <= s[s.len() - 1] < 1000);
        let all = all_digits(s);
        let head = all_digits(front);
        let n = head.len() as int;
        assert(all.take(n) =~= head);
        assert(all.take(n + 3) =~= all);
        assert(all.subrange(n, n + 3) =~= limb_digits(x));
        lemma_decimal_split(all, n, n + 3);
        assert(pow10(3) == 1000) by {
            reveal_with_fuel(pow10, 4);
        }
        let three = limb_digits(x);
        assert(decimal(three) == x) by {
            reveal_with_fuel(decimal, 4);
            assert(three.drop_last() =~= seq![three[0], three[1]]);
            assert(three.drop_last().drop_last() =~= seq![three[0]]);
            assert(three.drop_last().drop_last().drop_last() =~= Seq::<u8>::empty());
        }
        assert forall|i: int| 0 <= i < all.len() implies is_digit(#[trigger] all[i]) by {
            if i < n {
                assert(all[i] == head[i]);
            } else {
                assert(all[i] == three[i - n]);
            }
        }
    }
}

/// Reads up to three digits.
pub fn parse_chunk(bytes: &[u8], from: usize, to: usize) -> (r: i32)
    requires
        from <= to <= bytes@.len(),
        to - from <= 3,
        forall|i: int| from <= i < to ==> is_digit(#[trigger] bytes@[i]),
    ensures
        r == decimal(bytes@.subrange(from as int, to as int)),
        0 <= r < 1000,
{
    let mut r: i32 = 0;
    let mut i: usize = from;
    proof {
        assert(bytes@.subrange(from as int, from as int) =~= Seq::<u8>::empty());
    }
    while i < to
        invariant
            from <= i <= to <= bytes@.len(),
            to - from <= 3,
            forall|j: int| from <= j < to ==> is_digit(#[trigger] bytes@[j]),
            r == decimal(bytes@.subrange(from as int, i as int)),
            i - from == 0 ==> r == 0,
            i - from == 1 ==> 0 <= r < 10,
            i - from == 2 ==> 0 <= r < 100,
            i - from == 3 ==> 0 <= r < 1000,
        decreases to - i,
    {
        proof {
            assert(bytes@.subrange(from as int, i + 1).drop_last() =~= bytes@.subrange(from as int, i as int));
            assert(is_digit(bytes@[i as int]));
        }
        r = r * 10 + (bytes[i] - 48) as i32;
        i += 1;
    }
    r
}

impl BigUInteger {
    /// The number that the digits write: three digits make one limb, from
    /// the low end on.
    pub fn from_str(number_string: &str) -> (r: BigUInteger)
        requires
            forall|i: int|
                0 <= i < number_string.spec_bytes().len() ==> is_digit(#[trigger] number_string.spec_bytes()[i]),
        ensures
            r.wf(),
            r.value() == decimal(number_string.spec_bytes()),
            r.number@.len() == (number_string.spec_bytes().len() + 2) / 3,
    {
        let bytes = number_string.as_bytes();
        proof {
            assert(bytes@.skip(0) =~= bytes@);
        }
        Self::from_digits(bytes, 0)
    }

    /// The number that the digits from place `from` on write.
    pub fn from_digits(bytes: &[u8], from: usize) -> (r: BigUInteger)
        requires
            from <= bytes@.len(),
            forall|i: int| from <= i < bytes@.len() ==> is_digit(#[trigger] bytes@[i]),
        ensures
            r.wf(),
            r.value() == decimal(bytes@.skip(from as int)),
            r.number@.len() == (bytes@.len() - from + 2) / 3,
    {
        let ghost s = bytes@.skip(from as int);
        let size: usize = bytes.len() - from;
        let first: usize = size % 3;
        let mut number_vector: Vec<i32> = Vec::new();
        let mut i: usize = 0;
        proof {
            assert(s.take(0) =~= Seq::<u8>::empty());
            assert(pow10(3) == 1000) by {
                reveal_with_fuel(pow10, 4);
            }
        }
        if first != 0 {
            let chunk = parse_chunk(bytes, from, from + first);
            proof {
                assert(bytes@.subrange(from as int, from + first) =~= s.take(first as int));
                assert(seq![chunk].drop_last() =~= Seq::<i32>::empty());
            }
            number_vector.push(chunk);
            i = first;
            proof {
                assert(number_vector@ =~= seq![chunk]);
                assert(limbs_value(number_vector@) == limbs_value(number_vector@.drop_last()) * 1000 + chunk);
            }
        }
        while i < size
            invariant
                i <= size,
                size == s.len(),
                s == bytes@.skip(from as int),
                from + size == bytes@.len(),
                forall|j: int| from <= j < bytes@.len() ==> is_digit(#[trigger] bytes@[j]),
                (size - i) % 3 == 0,
                limbs_ok(number_vector@),
                limbs_value(number_vector@) == decimal(s.take(i as int)),
                number_vector@.len() == (i + 2) / 3,
                pow10(3) == 1000,
            decreases size - i,
        {
            assert(size - i >= 3);
            assert(from + i + 3 <= bytes@.len());
            assert(bytes@.len() == bytes.len());
            let chunk = parse_chunk(bytes, from + i, from + i + 3);
            proof {
                assert(bytes@.subrange(from + i, from + i + 3) =~= s.subrange(i as int, i + 3));
                lemma_decimal_split(s, i as int, i + 3);
                assert(number_vector@.push(chunk).drop_last() =~= number_vector@);
            }
            number_vector.push(chunk);
            i += 3;
        }
        proof {
            assert(s.take(size as int) =~= s);
        }
        BigUInteger { number: number_vector }
    }

    /// The number without its sign.
    #[allow(non_snake_case)]
    pub fn from_BigInteger(big_integer: BigInteger) -> (r: BigUInteger)
        ensures
            r.number == big_integer.number,
    {
        BigUInteger { number: big_integer.number }
    }

    /// The digits of the number, without needless zeros in front.
    pub fn to_string(&self) -> (text: String)
        requires
            self.wf(),
            self.number@.len() >= 1,
        ensures
            text@ == as_chars(digits_of(self.value() as nat)),
    {
        let mut text = String::new();
        self.write_digits(&mut text);
        proof {
            assert(Seq::<char>::empty() + as_chars(digits_of(self.value() as nat)) =~= as_chars(
                digits_of(self.value() as nat),
            ));
        }
        text
    }

    /// Appends the digits of the number, without needless zeros in front.
    pub fn write_digits(&self, text: &mut String)
        requires
            self.wf(),
            self.number@.len() >= 1,
        ensures
            final(text)@ == old(text)@ + as_chars(digits_of(self.value() as nat)),
    {
        let ghost s = self.number@;
        let mut digits: Vec<u8> = Vec::new();
        let size: usize = self.number.len();
        let mut i: usize = 0;
        proof {
            assert(s.take(0) =~= Seq::<i32>::empty());
        }
        while i < size
            invariant
                i <= size,
                size == s.len(),
                s == self.number@,
                limbs_ok(s),
                digits@ == all_digits(s.take(i as int)),
            decreases size - i,
        {
            let x = self.number[i];
            proof {
                assert(0 <= s[i as int] < 1000);
                assert(s.take(i + 1).drop_last() =~= s.take(i as int));
            }
            digits.push(48 + (x / 100) as u8);
            digits.push(48 + ((x / 10) % 10) as u8);
            digits.push(48 + (x % 10) as u8);
            proof {
                assert(digits@ =~= all_digits(s.take(i as int)) + limb_digits(x));
            }
            i += 1;
        }
        proof {
            assert(s.take(size as int) =~= s);
            lemma_all_digits(s);
            assert(digits@.skip(0) =~= digits@);
        }
        let count: usize = digits.len();
        let mut start: usize = 0;
        while start + 1 < count && digits[start] == 48
            invariant
                start < count,
                count == digits@.len(),
                decimal(digits@.skip(start as int)) == limbs_value(s),
            decreases count - start,
        {
            proof {
                lemma_decimal_leading_zero(digits@.skip(start as int));
                assert(digits@.skip(start as int).drop_first() =~= digits@.skip(start + 1));
            }
            start += 1;
        }
        let ghost kept = digits@.skip(start as int);
        proof {
            assert forall|j: int| 0 <= j < kept.len() implies is_digit(#[trigger] kept[j]) by {
                assert(kept[j] == digits@[start + j]);
            }
            lemma_digits_unique(kept);
            lemma_value_bound(s);
            assert(as_chars(kept.take(0)) =~= Seq::<char>::empty());
            assert(text@ + Seq::<char>::empty() =~= text@);
        }
        let mut j: usize = start;
        while j < count
            invariant
                start <= j <= count,
                count == digits@.len(),
                kept == digits@.skip(start as int),
                text@ == old(text)@ + as_chars(kept.take(j - start)),
            decreases count - j,
        {
            let c = digits[j];
            string_push(text, c as char);
            proof {
                assert(kept[j - start] == c);
                assert(as_chars(kept.take(j - start + 1)) =~= as_chars(kept.take(j - start)).push(c as char));
                assert(old(text)@ + as_chars(kept.take(j - start)).push(c as char) =~= (old(text)@ + as_chars(
                    kept.take(j - start),
                )).push(c as char));
            }
            j += 1;
        }
        proof {
            assert(kept.take(kept.len() as int) =~= kept);
        }
    }
}

/// A whole number: its sign, `true` where it is not negative, and the
/// limbs of its size, highest first.
#[derive(Clone, Debug)]
pub struct BigInteger {
    pub sign: bool,
    pub number: Vec<i32>,
}

/// The number of the given sign and size.
pub open spec fn signed(sign: bool, size: int) -> int {
    if sign {
        size
    } else {
        -size
    }
}

impl BigInteger {
    /// The number itself.
    pub open spec fn value(&self) -> int {
        signed(self.sign, limbs_value(self.number@))
    }

    /// The limbs of the size are below the base.
    pub open spec fn wf(&self) -> bool {
        limbs_ok(self.number@)
    }

    /// The size is written without needless zero limbs.
    pub open spec fn is_normal(&self) -> bool {
        &&& self.wf()
        &&& self.number@.len() >= 1
        &&& self.number@.len() > 1 ==> self.number@[0] > 0
    }

    /// The number that the text writes: digits, with or without a sign
    /// before them.
    pub fn from_str(number_string: &str) -> (r: BigInteger)
        requires
            number_string.spec_bytes().len() >= 1,
            forall|i: int|
                1 <= i < number_string.spec_bytes().len() ==> is_digit(#[trigger] number_string.spec_bytes()[i]),
            is_digit(number_string.spec_bytes()[0]) || number_string.spec_bytes()[0] == 43
                || number_string.spec_bytes()[0] == 45,
        ensures
            r.wf(),
            r.sign == (number_string.spec_bytes()[0] != 45),
            limbs_value(r.number@) == decimal(
                if is_digit(number_string.spec_bytes()[0]) {
                    number_string.spec_bytes()
                } else {
                    number_string.spec_bytes().skip(1)
                },
            ),
    {
        let bytes = number_string.as_bytes();
        let sign = bytes[0];
        let from: usize = if sign == 45 || sign == 43 {
            1
        } else {
            0
        };
        proof {
            assert(bytes@.skip(0) =~= bytes@);
        }
        let size = BigUInteger::from_digits(bytes, from);
        BigInteger { sign: sign != 45, number: size.number }
    }

    /// The sum. Numbers of one sign give their sign and the sum of their
    /// sizes; numbers of different signs give the sign of the larger size,
    /// or of this number where the sizes are equal, and the difference of
    /// the sizes in the limbs that the subtraction limb by limb leaves.
    pub fn add(self, other: BigInteger) -> (r: BigInteger)
        requires
            self.is_normal(),
            other.is_normal(),
        ensures
            r.wf(),
            r.value() == self.value() + other.value(),
            r.sign == (if self.sign != other.sign && limbs_value(self.number@) < limbs_value(other.number@) {
                other.sign
            } else {
                self.sign
            }),
            r.number@.len() == (if self.sign == other.sign {
                sum_limbs(self.number@, other.number@)
            } else if limbs_value(self.number@) < limbs_value(other.number@) {
                difference_limbs(other.number@, self.number@)
            } else {
                difference_limbs(self.number@, other.number@)
            }),
            self.sign == other.sign ==> r.is_normal(),
    {
        let self_sign = self.sign;
        let other_sign = other.sign;
        let a = BigUInteger::from_BigInteger(self);
        let b = BigUInteger::from_BigInteger(other);
        if self_sign == other_sign {
            BigInteger { sign: self_sign, number: a.add(b).number }
        } else {
            let swapped = a.compare(&b) < 0;
            proof {
                if swapped {
                    if a.number@.len() > b.number@.len() {
                        lemma_longer_is_larger(b.number@, a.number@);
                    }
                } else {
                    if a.number@.len() < b.number@.len() {
                        lemma_longer_is_larger(a.number@, b.number@);
                    }
                }
            }
            let (big, small, big_sign) = if swapped {
                (b, a, other_sign)
            } else {
                (a, b, self_sign)
            };
            BigInteger { sign: big_sign, number: big.sub(small).number }
        }
    }

    /// The difference. Numbers of different signs give the sign of this
    /// number and the sum of their sizes; numbers of one sign give the
    /// difference of the sizes in the limbs that the subtraction limb by
    /// limb leaves, with the sign of this number where its size is not the
    /// smaller one, and the other sign where it is.
    pub fn sub(self, other: BigInteger) -> (r: BigInteger)
        requires
            self.is_normal(),
            other.is_normal(),
        ensures
            r.wf(),
            r.value() == self.value() - other.value(),
            r.sign == (if self.sign == other.sign && limbs_value(self.number@) < limbs_value(other.number@) {
                !self.sign
            } else {
                self.sign
            }),
            r.number@.len() == (if self.sign != other.sign {
                sum_limbs(self.number@, other.number@)
            } else if limbs_value(self.number@) < limbs_value(other.number@) {
                difference_limbs(other.number@, self.number@)
            } else {
                difference_limbs(self.number@, other.number@)
            }),
            self.sign != other.sign ==> r.is_normal(),
    {
        let self_sign = self.sign;
        let other_sign = other.sign;
        let a = BigUInteger::from_BigInteger(self);
        let b = BigUInteger::from_BigInteger(other);
        let swapped = a.compare(&b) < 0;
        proof {
            if swapped {
                if a.number@.len() > b.number@.len() {
                    lemma_longer_is_larger(b.number@, a.number@);
                }
            } else {
                if a.number@.len() < b.number@.len() {
                    lemma_longer_is_larger(a.number@, b.number@);
                }
            }
        }
        let (big, small, big_sign, small_sign) = if swapped {
            (b, a, other_sign, self_sign)
        } else {
            (a, b, self_sign, other_sign)
        };
        if big_sign && small_sign {
            BigInteger { sign: !swapped, number: big.sub(small).number }
        } else if !big_sign && !small_sign {
            BigInteger { sign: swapped, number: big.sub(small).number }
        } else if !big_sign && small_sign {
            BigInteger { sign: swapped, number: big.add(small).number }
        } else {
            BigInteger { sign: !swapped, number: big.add(small).number }
        }
    }

    /// The text of the number: its digits without needless zeros in
    /// front, after a minus sign where the sign is negative.
    pub fn to_string(&self) -> (text: String)
        requires
            self.wf(),
            self.number@.len() >= 1,
        ensures
            text@ == (if self.sign {
                Seq::<char>::empty()
            } else {
                seq!['-']
            }) + as_chars(digits_of(limbs_value(self.number@) as nat)),
    {
        let mut text = String::new();
        if !self.sign {
            string_push(&mut text, '-');
            proof {
                assert(text@ =~= seq!['-']);
            }
        }
        let size = BigUInteger { number: self.number.clone() };
        proof {
            assert(size.number@ =~= self.number@);
        }
        size.write_digits(&mut text);
        text
    }

    /// Tells whether sign and limbs are the same.
    pub fn eq(&self, other: &BigInteger) -> (r: bool)
        ensures
            r == (self.sign == other.sign && self.number@ == other.number@),
    {
        if self.sign != other.sign || self.number.len() != other.number.len() {
            return false;
        }
        let size: usize = self.number.len();
        let mut i: usize = 0;
        while i < size
            invariant
                i <= size,
                size == self.number@.len(),
                size == other.number@.len(),
                forall|j: int| 0 <= j < i ==> self.number@[j] == other.number@[j],
            decreases size - i,
        {
            if self.number[i] != other.number[i] {
                return false;
            }
            i += 1;
        }
        assert(self.number@ =~= other.number@);
        true
    }

    /// How this number stands to the other: `-1`, `0` or `1`. Where the
    /// signs differ the negative number is the smaller one; else the sizes
    /// decide, by their rows of limbs.
    pub fn compare(&self, other: &BigInteger) -> (r: i8)
        ensures
            r == if self.sign != other.sign {
                if !self.sign {
                    -1int
                } else {
                    1int
                }
            } else if self.sign {
                limb_order(self.number@, other.number@)
            } else {
                limb_order(other.number@, self.number@)
            },
    {
        if self.sign != other.sign {
            if !self.sign {
                -1
            } else {
                1
            }
        } else {
            let size: usize = self.number.len();
            if self.number.len() != other.number.len() {
                let shorter = self.number.len() < other.number.len();
                return if shorter == self.sign {
                    -1
                } else {
                    1
                };
            }
            let mut i: usize = 0;
            proof {
                assert(self.number@.skip(0) =~= self.number@);
                assert(other.number@.skip(0) =~= other.number@);
            }
            while i < size
                invariant
                    i <= size,
                    size == self.number@.len(),
                    size == other.number@.len(),
                    limbwise(self.number@, other.number@) == limbwise(
                        self.number@.skip(i as int),
                        other.number@.skip(i as int),
                    ),
                    limbwise(other.number@, self.number@) == limbwise(
                        other.number@.skip(i as int),
                        self.number@.skip(i as int),
                    ),
                    self.sign == other.sign,
                decreases size - i,
            {
                proof {
                    assert(self.number@.skip(i as int).drop_first() =~= self.number@.skip(i + 1));
                    assert(other.number@.skip(i as int).drop_first() =~= other.number@.skip(i + 1));
                }
                if self.number[i] != other.number[i] {
                    proof {
                        assert(self.number@.skip(i as int)[0] == self.number@[i as int]);
                        assert(other.number@.skip(i as int)[0] == other.number@[i as int]);
                    }
                    let smaller = self.number[i] < other.number[i];
                    return if smaller == self.sign {
                        -1
                    } else {
                        1
                    };
                }
                i += 1;
            }
            0
        }
    }
}

} // verus!
