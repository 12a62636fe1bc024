//! Hamming codes: check bits at the places that are powers of two, each
//! keeping the parity even over the places that share its bit.

use crate::reader::string_push;
use vstd::prelude::*;
use vstd::string::StringSliceAdditionalSpecFns;

verus! {

/// `p` is a power of two.
pub open spec fn is_pow2(p: usize) -> bool {
    p != 0 && p & ((p - 1) as usize) == 0
}

/// Tells whether `p` is a power of two.
pub fn is_power_of_two(p: usize) -> (r: bool)
    ensures
        r == is_pow2(p),
{
    p != 0 && (p & (p - 1)) == 0
}

/// Whether an odd number of the first `m` bits are set at places, counted
/// from one, that share a bit with `mask`.
pub open spec fn parity(bits: Seq<bool>, mask: usize, m: int) -> bool
    decreases m,
{
    if m <= 0 {
        false
    } else {
        parity(bits, mask, m - 1) ^ (bits[m - 1] && (m as usize) & mask != 0)
    }
}

/// The number of places among the first `m` that are no powers of two: the
/// places of the data bits.
pub open spec fn data_count(m: int) -> int
    decreases m,
{
    if m <= 0 {
        0
    } else {
        data_count(m - 1) + if is_pow2(m as usize) {
            0int
        } else {
            1int
        }
    }
}

/// The data bits among the first `m` bits, in order.
pub open spec fn payload(bits: Seq<bool>, m: int) -> Seq<bool>
    decreases m,
{
    if m <= 0 {
        Seq::empty()
    } else if is_pow2(m as usize) {
        payload(bits, m - 1)
    } else {
        payload(bits, m - 1).push(bits[m - 1])
    }
}

/// Every check bit of `code` keeps its parity even.
pub open spec fn checks_hold(code: Seq<bool>) -> bool {
    forall|p: usize| 1 <= p <= code.len() && is_pow2(p) ==> !#[trigger] parity(code, p, code.len() as int)
}

/// `code` is the code word of `source`: it is as long as the data bits
/// need, ends with the last of them, holds them in order at the places
/// that are no powers of two, and every check bit keeps its parity even.
pub open spec fn is_code_word(code: Seq<bool>, source: Seq<bool>) -> bool {
    &&& payload(code, code.len() as int) == source
    &&& code.len() > 0 ==> !is_pow2(code.len() as usize)
    &&& checks_hold(code)
}

/// Writing one bit changes a parity where the bit changes and its place
/// shares a bit with the mask.
pub proof fn lemma_parity_update(bits: Seq<bool>, mask: usize, m: int, at: int, value: bool)
    requires
        0 <= at < m <= bits.len(),
    ensures
        parity(bits.update(at, value), mask, m) == (parity(bits, mask, m) ^ (bits[at] != value && ((at + 1) as usize)
            & mask != 0)),
    decreases m,
{
    let after = bits.update(at, value);
    if at == m - 1 {
        lemma_parity_same(bits, after, mask, m - 1);
    } else {
        lemma_parity_update(bits, mask, m - 1, at, value);
    }
}

/// The parity over the first `m` bits depends on those bits alone.
pub proof fn lemma_parity_same(a: Seq<bool>, b: Seq<bool>, mask: usize, m: int)
    requires
        forall|i: int| 0 <= i < m ==> a[i] == b[i],
    ensures
        parity(a, mask, m) == parity(b, mask, m),
    decreases m,
{
    if m > 0 {
        lemma_parity_same(a, b, mask, m - 1);
    }
}

/// The data bits among the first `m` bits depend on those bits alone.
pub proof fn lemma_payload_same(a: Seq<bool>, b: Seq<bool>, m: int)
    requires
        forall|i: int| 0 <= i < m && !is_pow2((i + 1) as usize) ==> a[i] == b[i],
    ensures
        payload(a, m) == payload(b, m),
    decreases m,
{
    if m > 0 {
        lemma_payload_same(a, b, m - 1);
    }
}

/// The parity that the first `m` bits have under `mask`.
pub fn parity_of(bits: &Vec<bool>, mask: usize) -> (odd: bool)
    ensures
        odd == parity(bits@, mask, bits@.len() as int),
{
    let size: usize = bits.len();
    let mut odd = false;
    let mut i: usize = 0;
    while i < size
        invariant
            i <= size,
            size == bits@.len(),
            odd == parity(bits@, mask, i as int),
        decreases size - i,
    {
        let here = (((i + 1) & mask) != 0) && bits[i];
        odd = odd ^ here;
        i += 1;
    }
    odd
}

/// Two different powers of two share no bit, a power of two shares its bit
/// with itself, and the only powers of two that follow each other are one
/// and two.
pub proof fn lemma_powers(p: usize, q: usize)
    requires
        is_pow2(p),
    ensures
        p & p != 0,
        is_pow2(q) && p != q ==> p & q == 0,
        p < usize::MAX && is_pow2((p + 1) as usize) ==> p == 1,
        p >= 4 ==> !is_pow2((p - 1) as usize),
        is_pow2(1) && is_pow2(2) && !is_pow2(3),
{
    assert(p & p != 0) by (bit_vector)
        requires
            p != 0,
    ;
    if is_pow2(q) && p != q {
        assert(p & q == 0) by (bit_vector)
            requires
                p != 0,
                p & ((p - 1) as usize) == 0,
                q != 0,
                q & ((q - 1) as usize) == 0,
                p != q,
        ;
    }
    if p < usize::MAX {
        let r = (p + 1) as usize;
        if is_pow2(r) {
            assert(p == 1) by (bit_vector)
                requires
                    p != 0,
                    p & ((p - 1) as usize) == 0,
                    r == p + 1,
                    r & ((r - 1) as usize) == 0,
            ;
        }
    }
    if p >= 4 {
        let r = (p - 1) as usize;
        assert(!(r != 0 && r & ((r - 1) as usize) == 0)) by (bit_vector)
            requires
                p >= 4,
                p & ((p - 1) as usize) == 0,
                r == p - 1,
        ;
    }
    assert(1usize & ((1usize - 1) as usize) == 0) by (bit_vector);
    assert(2usize & ((2usize - 1) as usize) == 0) by (bit_vector);
    assert(3usize & ((3usize - 1) as usize) != 0) by (bit_vector);
}

/// How many check bits may follow before the next data bit.
pub open spec fn checks_ahead(i: usize) -> int {
    if !is_pow2(i) {
        0
    } else if i < usize::MAX && is_pow2((i + 1) as usize) {
        2
    } else {
        1
    }
}

/// The code word of `source`: the bits of `source` at the places, counted
/// from one, that are no powers of two, and at each power of two the bit
/// that makes the parity even over the places that share its bit.
pub fn hamming_encode(source: &Vec<bool>) -> (code: Vec<bool>)
    requires
        2 * source@.len() + 2 < usize::MAX,
    ensures
        is_code_word(code@, source@),
{
    let n: usize = source.len();
    let mut res: Vec<bool> = Vec::new();
    let mut i: usize = 1;
    let mut filled: usize = 0;
    proof {
        assert(source@.take(0) =~= Seq::<bool>::empty());
    }
    while filled < n
        invariant
            n == source@.len(),
            2 * n + 2 < usize::MAX,
            filled <= n,
            i == res@.len() + 1,
            payload(res@, res@.len() as int) == source@.take(filled as int),
            forall|p: usize| 1 <= p <= res@.len() && is_pow2(p) ==> !#[trigger] res@[p - 1],
            res@.len() > 0 && is_pow2(res@.len() as usize) ==> filled < n,
            res@.len() <= 2 * filled + 2,
            res@.len() >= 3 && !is_pow2(res@.len() as usize) ==> res@.len() <= 2 * filled + 1,
        decreases n - filled, checks_ahead(i),
    {
        let ghost before = res@;
        if is_power_of_two(i) {
            proof {
                lemma_powers(i, i);
            }
            res.push(false);
            proof {
                lemma_payload_same(before, res@, before.len() as int);
                assert forall|p: usize| 1 <= p <= res@.len() && is_pow2(p) implies !#[trigger] res@[p - 1] by {
                    if p < i {
                        assert(!before[p - 1]);
                    }
                }
                if is_pow2((i + 1) as usize) {
                    assert(i == 1);
                }
            }
        } else {
            res.push(source[filled]);
            proof {
                lemma_payload_same(before, res@, before.len() as int);
                assert(source@.take(filled + 1) =~= source@.take(filled as int).push(source@[filled as int]));
                assert forall|p: usize| 1 <= p <= res@.len() && is_pow2(p) implies !#[trigger] res@[p - 1] by {
                    assert(!before[p - 1]);
                }
            }
            filled += 1;
        }
        i += 1;
    }
    proof {
        assert(source@.take(n as int) =~= source@);
    }
    let size: usize = res.len();
    let mut j: usize = 1;
    while j <= size
        invariant
            1 <= j <= size + 1,
            size < usize::MAX,
            res@.len() == size,
            payload(res@, size as int) == source@,
            forall|p: usize| 1 <= p < j && is_pow2(p) ==> !#[trigger] parity(res@, p, size as int),
            forall|p: usize| j <= p <= size && is_pow2(p) ==> !#[trigger] res@[p - 1],
        decreases size + 1 - j,
    {
        if is_power_of_two(j) {
            let odd = parity_of(&res, j);
            let ghost before = res@;
            res[j - 1] = odd;
            proof {
                assert(!before[j - 1]);
                lemma_payload_same(before, res@, size as int);
                assert forall|p: usize| 1 <= p < j + 1 && is_pow2(p) implies !#[trigger] parity(
                    res@,
                    p,
                    size as int,
                ) by {
                    lemma_parity_update(before, p, size as int, j - 1, odd);
                    lemma_powers(j, p);
                    if p < j {
                        assert(!parity(before, p, size as int));
                    }
                }
                assert forall|p: usize| j + 1 <= p <= size && is_pow2(p) implies !#[trigger] res@[p - 1] by {
                    assert(!before[p - 1]);
                }
            }
        }
        j += 1;
    }
    res
}

/// The places among the first `m` of the check bits whose parity is odd,
/// as one mask.
pub open spec fn syndrome(bits: Seq<bool>, m: int) -> usize
    decreases m,
{
    if m <= 0 {
        0
    } else if is_pow2(m as usize) && parity(bits, m as usize, bits.len() as int) {
        syndrome(bits, m - 1) | (m as usize)
    } else {
        syndrome(bits, m - 1)
    }
}

/// The bits with the one at place `at`, counted from one, turned over, if
/// there is such a place.
pub open spec fn turned(bits: Seq<bool>, at: int) -> Seq<bool> {
    if 1 <= at <= bits.len() {
        bits.update(at - 1, !bits[at - 1])
    } else {
        bits
    }
}

/// The data bits of a word after the bit that its check bits point at was
/// turned over.
pub open spec fn decoded(bits: Seq<bool>) -> Seq<bool> {
    payload(turned(bits, syndrome(bits, bits.len() as int) as int), bits.len() as int)
}

/// The data bits of a word in which at most one bit is wrong: the check
/// bits whose parity is odd name the place of the wrong bit, which is
/// turned over before the data bits are taken out.
pub fn hamming_decode(encoded: &Vec<bool>) -> (data: Vec<bool>)
    ensures
        data@ == decoded(encoded@),
{
    let size: usize = encoded.len();
    let mut wrong: usize = 0;
    let mut i: usize = 0;
    while i < size
        invariant
            i <= size,
            size == encoded@.len(),
            wrong == syndrome(encoded@, i as int),
        decreases size - i,
    {
        if is_power_of_two(i + 1) {
            let odd = parity_of(encoded, i + 1);
            if odd {
                wrong |= i + 1;
            }
        }
        i += 1;
    }
    let ghost mended = turned(encoded@, wrong as int);
    let mut data: Vec<bool> = Vec::new();
    let mut k: usize = 0;
    while k < size
        invariant
            k <= size,
            size == encoded@.len(),
            mended == turned(encoded@, wrong as int),
            data@ == payload(mended, k as int),
        decreases size - k,
    {
        if !is_power_of_two(k + 1) {
            let v = encoded[k];
            data.push(
                if k + 1 == wrong {
                    !v
                } else {
                    v
                },
            );
        }
        k += 1;
    }
    data
}

/// The check bits of a word whose parities are all even point nowhere.
pub proof fn lemma_syndrome_of_code_word(code: Seq<bool>, m: int)
    requires
        checks_hold(code),
        m <= code.len(),
    ensures
        syndrome(code, m) == 0,
    decreases m,
{
    if m > 0 {
        lemma_syndrome_of_code_word(code, m - 1);
        if is_pow2(m as usize) {
            assert(!parity(code, m as usize, code.len() as int));
        }
    }
}

/// Decoding a code word gives back what was encoded.
pub proof fn lemma_decode_inverts_encode(code: Seq<bool>, source: Seq<bool>)
    requires
        is_code_word(code, source),
    ensures
        decoded(code) == source,
{
    lemma_syndrome_of_code_word(code, code.len() as int);
}

/// The places of all check bits among the first `m`, as one mask.
pub open spec fn check_mask(m: int) -> usize
    decreases m,
{
    if m <= 0 {
        0
    } else if is_pow2(m as usize) {
        check_mask(m - 1) | (m as usize)
    } else {
        check_mask(m - 1)
    }
}

/// Every place up to `m` is made of the places of check bits up to `m`.
pub proof fn lemma_mask_covers(m: usize)
    ensures
        forall|x: usize| x <= m ==> #[trigger] (x & check_mask(m as int)) == x,
    decreases m,
{
    if m == 0 {
        assert forall|x: usize| x <= m implies #[trigger] (x & check_mask(m as int)) == x by {
            assert(0usize & 0usize == 0usize) by (bit_vector);
        }
    } else {
        let before = check_mask(m - 1);
        let now = check_mask(m as int);
        lemma_mask_covers((m - 1) as usize);
        assert forall|x: usize| x <= m implies #[trigger] (x & now) == x by {
            if x < m {
                assert(x & before == x);
                assert(x & (before | m) == x) by (bit_vector)
                    requires
                        x & before == x,
                ;
            } else if is_pow2(m) {
                assert(m & (before | m) == m) by (bit_vector);
            } else {
                let a = m & ((m - 1) as usize);
                let b = m ^ a;
                assert(a < m && b < m && a | b == m) by (bit_vector)
                    requires
                        m != 0,
                        m & ((m - 1) as usize) != 0,
                        a == m & ((m - 1) as usize),
                        b == m ^ a,
                ;
                assert(a & before == a);
                assert(b & before == b);
                assert(m & before == m) by (bit_vector)
                    requires
                        a | b == m,
                        a & before == a,
                        b & before == b,
                ;
            }
        }
    }
}

/// Where one bit of a code word is turned over, the check bits among the
/// first `m` with odd parity are those whose place shares a bit with the
/// place of that bit.
pub proof fn lemma_syndrome_of_one_error(code: Seq<bool>, at: int, m: int)
    requires
        checks_hold(code),
        0 <= at < code.len(),
        m <= code.len() <= usize::MAX,
    ensures
        syndrome(code.update(at, !code[at]), m) == ((at + 1) as usize) & check_mask(m),
    decreases m,
{
    let bad = code.update(at, !code[at]);
    let x = (at + 1) as usize;
    if m <= 0 {
        assert(x & 0usize == 0usize) by (bit_vector);
    } else {
        lemma_syndrome_of_one_error(code, at, m - 1);
        let before = check_mask(m - 1);
        let p = m as usize;
        if is_pow2(p) {
            lemma_parity_update(code, p, code.len() as int, at, !code[at]);
            assert(!parity(code, p, code.len() as int));
            assert(parity(bad, p, code.len() as int) == (x & p != 0));
            if x & p != 0 {
                assert((x & before) | p == x & (before | p)) by (bit_vector)
                    requires
                        x & p != 0,
                        p != 0,
                        p & ((p - 1) as usize) == 0,
                ;
            } else {
                assert(x & before == x & (before | p)) by (bit_vector)
                    requires
                        x & p == 0,
                ;
            }
        }
    }
}

/// Decoding a code word in which one bit was turned over gives back what
/// was encoded.
pub proof fn lemma_decode_mends_one_error(code: Seq<bool>, source: Seq<bool>, at: int)
    requires
        is_code_word(code, source),
        0 <= at < code.len() <= usize::MAX,
    ensures
        decoded(code.update(at, !code[at])) == source,
{
    let bad = code.update(at, !code[at]);
    let x = (at + 1) as usize;
    lemma_syndrome_of_one_error(code, at, code.len() as int);
    lemma_mask_covers(code.len() as usize);
    assert(x & check_mask(code.len() as int) == x);
    assert(turned(bad, x as int) =~= code);
}

/// The bits that a text of the characters `0` and `1` writes.
pub open spec fn bits_of(text: Seq<u8>) -> Seq<bool> {
    Seq::new(text.len(), |i: int| text[i] == 49)
}

/// The characters `0` and `1` that write the bits.
pub open spec fn text_of(bits: Seq<bool>) -> Seq<char> {
    Seq::new(
        bits.len(),
        |i: int|
            if bits[i] {
                '1'
            } else {
                '0'
            },
    )
}

/// Reads a text of the characters `0` and `1` as bits.
pub fn ascii_as_bool_vector(text: &str) -> (bits: Vec<bool>)
    requires
        forall|i: int|
            0 <= i < text.spec_bytes().len() ==> #[trigger] text.spec_bytes()[i] == 48 || text.spec_bytes()[i]
                == 49,
    ensures
        bits@ == bits_of(text.spec_bytes()),
{
    let bytes = text.as_bytes();
    let size: usize = bytes.len();
    let mut bits: Vec<bool> = Vec::new();
    let mut i: usize = 0;
    while i < size
        invariant
            i <= size,
            size == bytes@.len(),
            bits@ == bits_of(bytes@.take(i as int)),
        decreases size - i,
    {
        bits.push(bytes[i] == 49);
        proof {
            assert(bits@ =~= bits_of(bytes@.take(i + 1)));
        }
        i += 1;
    }
    proof {
        assert(bytes@.take(size as int) =~= bytes@);
    }
    bits
}

/// Writes the bits as a text of the characters `0` and `1`.
pub fn bool_vector_to_string(bits: &Vec<bool>) -> (text: String)
    ensures
        text@ == text_of(bits@),
{
    let size: usize = bits.len();
    let mut text = String::new();
    let mut i: usize = 0;
    proof {
        assert(text@ =~= text_of(bits@.take(0)));
    }
    while i < size
        invariant
            i <= size,
            size == bits@.len(),
            text@ == text_of(bits@.take(i as int)),
        decreases size - i,
    {
        let c = if bits[i] {
            '1'
        } else {
            '0'
        };
        string_push(&mut text, c);
        proof {
            assert(text@ =~= text_of(bits@.take(i + 1)));
        }
        i += 1;
    }
    proof {
        assert(bits@.take(size as int) =~= bits@);
    }
    text
}

} // verus!
