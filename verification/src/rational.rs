//! Fractions of machine integers in lowest terms.

use crate::reader::as_chars;
use crate::reader::string_push;
use crate::writer::push_signed;
use crate::writer::signed_text;
use vstd::arithmetic::div_mod::lemma_fundamental_div_mod;
use vstd::arithmetic::div_mod::lemma_mod_multiples_basic;
use vstd::prelude::*;

verus! {

/// The size of `a`.
pub open spec fn size(a: int) -> int {
    if a < 0 {
        -a
    } else {
        a
    }
}

/// The positive number `d` divides `a` and `b`, and every positive number
/// that divides both divides `d`.
pub open spec fn is_gcd(d: int, a: int, b: int) -> bool {
    &&& d > 0
    &&& a % d == 0
    &&& b % d == 0
    &&& forall|c: int| c > 0 && a % c == 0 && #[trigger] (b % c) == 0 ==> d % c == 0
}

/// What the division in turns makes of `a` and `b`.
pub open spec fn gcd_run(a: int, b: int) -> int
    decreases b,
{
    if b <= 0 {
        a
    } else {
        gcd_run(b, a % b)
    }
}

/// A number that divides `u` and `v` divides `u * q + v`.
pub proof fn lemma_divides_sum(c: int, u: int, v: int, q: int)
    requires
        c > 0,
        u % c == 0,
        v % c == 0,
    ensures
        (u * q + v) % c == 0,
        (v - u * q) % c == 0,
{
    lemma_fundamental_div_mod(u, c);
    lemma_fundamental_div_mod(v, c);
    let ku = u / c;
    let kv = v / c;
    assert(u * q + v == (ku * q + kv) * c) by (nonlinear_arith)
        requires
            u == c * ku,
            v == c * kv,
    ;
    assert(v - u * q == (kv - ku * q) * c) by (nonlinear_arith)
        requires
            u == c * ku,
            v == c * kv,
    ;
    lemma_mod_multiples_basic(ku * q + kv, c);
    lemma_mod_multiples_basic(kv - ku * q, c);
}

/// The division in turns ends in the greatest common divisor.
pub proof fn lemma_gcd_run(a: int, b: int)
    requires
        a >= 0,
        b >= 0,
        a > 0 || b > 0,
    ensures
        is_gcd(gcd_run(a, b), a, b),
    decreases b,
{
    if b == 0 {
        lemma_mod_multiples_basic(1, a);
        lemma_mod_multiples_basic(0, a);
    } else {
        let r = a % b;
        let g = gcd_run(b, r);
        lemma_gcd_run(b, r);
        lemma_fundamental_div_mod(a, b);
        lemma_divides_sum(g, b, r, a / b);
        assert(a == b * (a / b) + r);
        assert forall|c: int| c > 0 && a % c == 0 && #[trigger] (b % c) == 0 implies g % c == 0 by {
            lemma_divides_sum(c, b, a, a / b);
            assert(a - b * (a / b) == r);
            assert(r % c == 0);
        }
    }
}

/// A fraction `x / y`.
#[derive(Clone, Copy, Debug)]
pub struct Rational {
    pub x: i32,
    pub y: i32,
}

impl Rational {
    /// The fraction is in lowest terms, and its lower part is not zero.
    pub open spec fn wf(&self) -> bool {
        &&& self.y != 0
        &&& is_gcd(1, size(self.x as int), size(self.y as int))
    }

    /// The fraction stands for the same number as `x / y`.
    pub open spec fn same_as(&self, x: int, y: int) -> bool {
        self.x * y == x * self.y
    }

    /// The greatest common divisor of two numbers that are not negative
    /// and not both zero.
    pub fn gcd(x: i32, y: i32) -> (d: i32)
        requires
            x >= 0,
            y >= 0,
        ensures
            d == gcd_run(x as int, y as int),
            x > 0 || y > 0 ==> is_gcd(d as int, x as int, y as int),
        decreases y,
    {
        proof {
            if x > 0 || y > 0 {
                lemma_gcd_run(x as int, y as int);
            }
        }
        if y == 0 {
            x
        } else {
            Rational::gcd(y, x % y)
        }
    }

    /// The fraction `x / y` in lowest terms; the sign of the lower part
    /// stays as it is.
    pub fn new(x: i32, y: i32) -> (r: Rational)
        requires
            y != 0,
            x > i32::MIN,
            y > i32::MIN,
        ensures
            r.wf(),
            r.same_as(x as int, y as int),
            r.x * gcd_run(size(x as int), size(y as int)) == x,
            r.y * gcd_run(size(x as int), size(y as int)) == y,
    {
        let ax: i32 = if x < 0 {
            -x
        } else {
            x
        };
        let ay: i32 = if y < 0 {
            -y
        } else {
            y
        };
        let d = Rational::gcd(ax, ay);
        proof {
            lemma_fundamental_div_mod(ax as int, d as int);
            lemma_fundamental_div_mod(ay as int, d as int);
        }
        let px: i32 = ax / d;
        let py: i32 = ay / d;
        assert(px * d == ax && py * d == ay) by (nonlinear_arith)
            requires
                ax == d * px,
                ay == d * py,
        ;
        assert(0 <= px <= ax && 0 < py <= ay) by (nonlinear_arith)
            requires
                px * d == ax,
                py * d == ay,
                d > 0,
                ax >= 0,
                ay > 0,
        ;
        let r = Rational {
            x: if x < 0 {
                -px
            } else {
                px
            },
            y: if y < 0 {
                -py
            } else {
                py
            },
        };
        proof {
            assert((-px) * d == -(px * d)) by (nonlinear_arith);
            assert((-py) * d == -(py * d)) by (nonlinear_arith);
            assert(r.x * d == x && r.y * d == y);
            assert(r.x * y == x * r.y) by (nonlinear_arith)
                requires
                    r.x * d == x,
                    r.y * d == y,
            ;
            assert(size(r.x as int) == px && size(r.y as int) == py);
            lemma_mod_multiples_basic(px as int, 1);
            lemma_mod_multiples_basic(py as int, 1);
            assert forall|c: int| c > 0 && (px as int) % c == 0 && #[trigger] ((py as int) % c) == 0 implies 1int
                % c == 0 by {
                lemma_lowest_terms(px as int, py as int, d as int, c);
            }
        }
        r
    }

    /// The sum of two fractions.
    pub fn add(self, other: Rational) -> (r: Rational)
        requires
            self.y != 0,
            other.y != 0,
            i32::MIN < self.x * other.y <= i32::MAX,
            i32::MIN < self.y * other.x <= i32::MAX,
            i32::MIN < self.x * other.y + self.y * other.x <= i32::MAX,
            i32::MIN < self.y * other.y <= i32::MAX,
        ensures
            r.wf(),
            r.same_as(self.x * other.y + self.y * other.x, self.y * other.y),
    {
        assert(self.y * other.y != 0) by (nonlinear_arith)
            requires
                self.y != 0,
                other.y != 0,
        ;
        Rational::new(self.x * other.y + self.y * other.x, self.y * other.y)
    }

    /// The difference of two fractions.
    pub fn sub(self, other: Rational) -> (r: Rational)
        requires
            self.y != 0,
            other.y != 0,
            i32::MIN < self.x * other.y <= i32::MAX,
            i32::MIN < self.y * other.x <= i32::MAX,
            i32::MIN < self.x * other.y - self.y * other.x <= i32::MAX,
            i32::MIN < self.y * other.y <= i32::MAX,
        ensures
            r.wf(),
            r.same_as(self.x * other.y - self.y * other.x, self.y * other.y),
    {
        assert(self.y * other.y != 0) by (nonlinear_arith)
            requires
                self.y != 0,
                other.y != 0,
        ;
        Rational::new(self.x * other.y - self.y * other.x, self.y * other.y)
    }

    /// The product of two fractions.
    pub fn mul(self, other: Rational) -> (r: Rational)
        requires
            self.y != 0,
            other.y != 0,
            i32::MIN < self.x * other.x <= i32::MAX,
            i32::MIN < self.y * other.y <= i32::MAX,
        ensures
            r.wf(),
            r.same_as(self.x * other.x, self.y * other.y),
    {
        assert(self.y * other.y != 0) by (nonlinear_arith)
            requires
                self.y != 0,
                other.y != 0,
        ;
        Rational::new(self.x * other.x, self.y * other.y)
    }

    /// The quotient of two fractions, the second of which is not zero.
    pub fn div(self, other: Rational) -> (r: Rational)
        requires
            self.y != 0,
            other.x != 0,
            i32::MIN < self.x * other.y <= i32::MAX,
            i32::MIN < self.y * other.x <= i32::MAX,
        ensures
            r.wf(),
            r.same_as(self.x * other.y, self.y * other.x),
    {
        assert(self.y * other.x != 0) by (nonlinear_arith)
            requires
                self.y != 0,
                other.x != 0,
        ;
        Rational::new(self.x * other.y, self.y * other.x)
    }

    /// Whether the two fractions have the same parts.
    pub fn eq(&self, other: &Rational) -> (same: bool)
        ensures
            same == (self.x == other.x && self.y == other.y),
    {
        (self.x == other.x) && (self.y == other.y)
    }

    /// The upper part alone where the lower part is one, else both parts
    /// with a stroke between them.
    pub fn to_string(&self) -> (text: String)
        ensures
            text@ == as_chars(self.text()),
    {
        let mut bytes: Vec<u8> = Vec::new();
        push_signed(&mut bytes, self.x as i64);
        if self.y != 1 {
            bytes.push(47);
            push_signed(&mut bytes, self.y as i64);
        }
        assert(bytes@ =~= self.text());
        let mut text = String::new();
        let count: usize = bytes.len();
        let mut j: usize = 0;
        proof {
            assert(as_chars(bytes@.take(0)) =~= Seq::<char>::empty());
        }
        while j < count
            invariant
                j <= count,
                count == bytes@.len(),
                text@ == as_chars(bytes@.take(j as int)),
            decreases count - j,
        {
            string_push(&mut text, bytes[j] as char);
            proof {
                assert(as_chars(bytes@.take(j + 1)) =~= as_chars(bytes@.take(j as int)).push(bytes@[j as int] as char));
            }
            j += 1;
        }
        proof {
            assert(bytes@.take(count as int) =~= bytes@);
        }
        text
    }

    /// The bytes of the text of the fraction.
    pub open spec fn text(&self) -> Seq<u8> {
        if self.y == 1 {
            signed_text(self.x as int)
        } else {
            signed_text(self.x as int) + seq![47u8] + signed_text(self.y as int)
        }
    }
}

/// Two numbers that were divided by their greatest common divisor have no
/// common divisor but one.
proof fn lemma_lowest_terms(px: int, py: int, d: int, c: int)
    requires
        px >= 0,
        py > 0,
        d > 0,
        is_gcd(d, px * d, py * d),
        c > 0,
        px % c == 0,
        py % c == 0,
    ensures
        1int % c == 0,
{
    lemma_fundamental_div_mod(px, c);
    lemma_fundamental_div_mod(py, c);
    let kx = px / c;
    let ky = py / c;
    let m = c * d;
    assert(m > 0) by (nonlinear_arith)
        requires
            m == c * d,
            c > 0,
            d > 0,
    ;
    assert(px * d == kx * m && py * d == ky * m) by (nonlinear_arith)
        requires
            px == c * kx,
            py == c * ky,
            m == c * d,
    ;
    lemma_mod_multiples_basic(kx, m);
    lemma_mod_multiples_basic(ky, m);
    assert((py * d) % m == 0);
    assert(d % m == 0);
    lemma_fundamental_div_mod(d, m);
    let k = d / m;
    assert(c == 1) by (nonlinear_arith)
        requires
            d == m * k,
            m == c * d,
            d > 0,
            c > 0,
    ;
}

} // verus!
