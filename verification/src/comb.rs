//! Combinatorial objects that grow letter by letter, and their listing in
//! the order of the alphabet.

use crate::counting::lemma_injection_bound;
use vstd::arithmetic::power::lemma_pow_increases;
use vstd::arithmetic::power::pow;
use vstd::prelude::*;

verus! {

/// An object that is built by adding letters at its end: a prefix of the
/// objects of its kind. The kind says how long a whole object is and which
/// letter may follow which letters.
pub trait CombinatorialObject: Sized {
    /// What all objects of one family have in common.
    type Kind;

    /// The kind of the object.
    spec fn kind(&self) -> Self::Kind;

    /// The letters of the object.
    spec fn items(&self) -> Seq<u64>;

    /// The object is in order.
    spec fn wf(&self) -> bool;

    /// The number of letters of a whole object.
    spec fn size_of(kind: Self::Kind) -> nat;

    /// The letter `e` may follow the letters `s`.
    spec fn may_follow(kind: Self::Kind, s: Seq<u64>, e: u64) -> bool;

    /// What `count_successors` asks of an object with the letters `s`.
    spec fn countable(kind: Self::Kind, s: Seq<u64>) -> bool;

    /// What `count_successors` gives for an object with the letters `s`.
    spec fn count_of(kind: Self::Kind, s: Seq<u64>) -> nat;

    /// Tells whether the object is whole.
    fn is_self_contained(&self) -> (whole: bool)
        requires
            self.wf(),
        ensures
            whole == (self.items().len() == Self::size_of(self.kind())),
    ;

    /// Tells whether the letter may be added.
    fn can_add(&self, element: &u64) -> (fits: bool)
        requires
            self.wf(),
        ensures
            fits == (self.items().len() < Self::size_of(self.kind()) && Self::may_follow(
                self.kind(),
                self.items(),
                *element,
            )),
    ;

    /// The number of whole objects that begin with this one.
    fn count_successors(&self) -> (count: u64)
        requires
            self.wf(),
            Self::countable(self.kind(), self.items()),
        ensures
            count == Self::count_of(self.kind(), self.items()),
    ;

    /// Adds a letter at the end.
    fn push(&mut self, element: u64)
        requires
            old(self).wf(),
            old(self).items().len() < Self::size_of(old(self).kind()),
            Self::may_follow(old(self).kind(), old(self).items(), element),
        ensures
            final(self).wf(),
            final(self).kind() == old(self).kind(),
            final(self).items() == old(self).items().push(element),
    ;

    /// Takes the last letter off.
    fn pop(&mut self) -> (element: u64)
        requires
            old(self).wf(),
            old(self).items().len() > 0,
        ensures
            final(self).wf(),
            final(self).kind() == old(self).kind(),
            final(self).items() == old(self).items().drop_last(),
            element == old(self).items().last(),
    ;

    /// A copy of the object.
    fn duplicate(&self) -> (copy: Self)
        requires
            self.wf(),
        ensures
            copy.wf(),
            copy.kind() == self.kind(),
            copy.items() == self.items(),
    ;
}

/// The letter `e` may be added to the letters `s`: they are fewer than a
/// whole object has, and `e` may follow them.
pub open spec fn addable<C: CombinatorialObject>(kind: C::Kind, s: Seq<u64>, e: u64) -> bool {
    s.len() < C::size_of(kind) && C::may_follow(kind, s, e)
}

/// The whole objects that begin with the letters `s`, in the order of the
/// alphabet: `s` itself where it is whole, then for each letter that may
/// be added, in order, the whole objects that begin with `s` and that
/// letter.
pub open spec fn all_from<C: CombinatorialObject>(kind: C::Kind, s: Seq<u64>, alphabet: Seq<u64>) -> Seq<Seq<u64>>
    decreases C::size_of(kind) - s.len(), alphabet.len() + 1,
{
    (if s.len() == C::size_of(kind) {
        seq![s]
    } else {
        Seq::empty()
    }) + from_letters::<C>(kind, s, alphabet, alphabet.len() as int)
}

/// The whole objects that begin with the letters `s` and one of the first
/// `k` letters of the alphabet.
pub open spec fn from_letters<C: CombinatorialObject>(
    kind: C::Kind,
    s: Seq<u64>,
    alphabet: Seq<u64>,
    k: int,
) -> Seq<Seq<u64>>
    decreases C::size_of(kind) - s.len(), k,
{
    if k <= 0 || k > alphabet.len() {
        Seq::empty()
    } else {
        from_letters::<C>(kind, s, alphabet, k - 1) + if addable::<C>(kind, s, alphabet[k - 1]) {
            all_from::<C>(kind, s.push(alphabet[k - 1]), alphabet)
        } else {
            Seq::empty()
        }
    }
}

/// The letters of the objects of a list.
pub open spec fn listing<C: CombinatorialObject>(list: Seq<C>) -> Seq<Seq<u64>> {
    Seq::new(list.len(), |i: int| list[i].items())
}

/// Adds to `answer_container` the whole objects that begin with `prefix`,
/// in the order of the alphabet, and leaves `prefix` as it was.
pub fn generate_all<C: CombinatorialObject>(prefix: &mut C, sorted_alphabet: &Vec<u64>, answer_container: &mut Vec<C>)
    requires
        old(prefix).wf(),
        old(prefix).items().len() <= C::size_of(old(prefix).kind()),
        forall|i: int| 0 <= i < old(answer_container)@.len() ==> (#[trigger] old(answer_container)@[i]).wf(),
    ensures
        final(prefix).wf(),
        final(prefix).kind() == old(prefix).kind(),
        final(prefix).items() == old(prefix).items(),
        forall|i: int| 0 <= i < final(answer_container)@.len() ==> (#[trigger] final(answer_container)@[i]).wf(),
        listing(final(answer_container)@) == listing(old(answer_container)@) + all_from::<C>(
            old(prefix).kind(),
            old(prefix).items(),
            sorted_alphabet@,
        ),
    decreases C::size_of(old(prefix).kind()) - old(prefix).items().len(),
{
    let ghost kind = prefix.kind();
    let ghost s = prefix.items();
    let ghost start = listing(answer_container@);
    let ghost own = if s.len() == C::size_of(kind) {
        seq![s]
    } else {
        Seq::<Seq<u64>>::empty()
    };
    if prefix.is_self_contained() {
        let copy = prefix.duplicate();
        answer_container.push(copy);
    }
    proof {
        assert(listing(answer_container@) =~= start + own);
        assert(start + own + Seq::<Seq<u64>>::empty() =~= start + own);
    }
    let count: usize = sorted_alphabet.len();
    let mut k: usize = 0;
    while k < count
        invariant
            k <= count,
            count == sorted_alphabet@.len(),
            prefix.wf(),
            prefix.kind() == kind,
            prefix.items() == s,
            s.len() <= C::size_of(kind),
            kind == old(prefix).kind(),
            s == old(prefix).items(),
            forall|i: int| 0 <= i < answer_container@.len() ==> (#[trigger] answer_container@[i]).wf(),
            listing(answer_container@) == start + own + from_letters::<C>(kind, s, sorted_alphabet@, k as int),
        decreases count - k,
    {
        let c: u64 = sorted_alphabet[k];
        let ghost before = listing(answer_container@);
        if prefix.can_add(&c) {
            prefix.push(c);
            generate_all(prefix, sorted_alphabet, answer_container);
            prefix.pop();
            proof {
                assert(s.push(c).drop_last() =~= s);
                assert(start + own + (from_letters::<C>(kind, s, sorted_alphabet@, k as int) + all_from::<C>(
                    kind,
                    s.push(c),
                    sorted_alphabet@,
                )) =~= before + all_from::<C>(kind, s.push(c), sorted_alphabet@));
            }
        } else {
            proof {
                assert(start + own + (from_letters::<C>(kind, s, sorted_alphabet@, k as int) + Seq::<
                    Seq<u64>,
                >::empty()) =~= before);
            }
        }
        k += 1;
    }
    proof {
        assert(start + own + from_letters::<C>(kind, s, sorted_alphabet@, count as int) =~= start + all_from::<C>(
            kind,
            s,
            sorted_alphabet@,
        ));
    }
}

/// The place of the first letter of the alphabet, from place `k` on, that
/// may be added to the letters `s`; the length of the alphabet where there
/// is none.
pub open spec fn first_fit<C: CombinatorialObject>(kind: C::Kind, s: Seq<u64>, alphabet: Seq<u64>, k: int) -> int
    decreases alphabet.len() - k,
{
    if k < 0 || k >= alphabet.len() {
        alphabet.len() as int
    } else if addable::<C>(kind, s, alphabet[k]) {
        k
    } else {
        first_fit::<C>(kind, s, alphabet, k + 1)
    }
}

/// The first whole object that begins with the letters `s`: at every step
/// the first letter of the alphabet that may be added is added.
pub open spec fn minimal<C: CombinatorialObject>(kind: C::Kind, s: Seq<u64>, alphabet: Seq<u64>) -> Seq<u64>
    decreases C::size_of(kind) - s.len(),
{
    let at = first_fit::<C>(kind, s, alphabet, 0);
    if s.len() >= C::size_of(kind) || at >= alphabet.len() {
        s
    } else {
        minimal::<C>(kind, s.push(alphabet[at]), alphabet)
    }
}

/// To letters that are fewer than a whole object has, some letter of the
/// alphabet may be added.
pub open spec fn never_stuck<C: CombinatorialObject>(kind: C::Kind, alphabet: Seq<u64>) -> bool {
    forall|s: Seq<u64>|
        s.len() < C::size_of(kind) ==> #[trigger] first_fit::<C>(kind, s, alphabet, 0) < alphabet.len()
}

/// The first fit is a place from `k` on where the letter may be added, and
/// no letter between may be added.
pub proof fn lemma_first_fit<C: CombinatorialObject>(kind: C::Kind, s: Seq<u64>, alphabet: Seq<u64>, k: int)
    requires
        0 <= k <= alphabet.len(),
    ensures
        k <= first_fit::<C>(kind, s, alphabet, k) <= alphabet.len(),
        first_fit::<C>(kind, s, alphabet, k) < alphabet.len() ==> addable::<C>(
            kind,
            s,
            alphabet[first_fit::<C>(kind, s, alphabet, k)],
        ),
        forall|j: int| k <= j < first_fit::<C>(kind, s, alphabet, k) ==> !addable::<C>(kind, s, #[trigger] alphabet[j]),
    decreases alphabet.len() - k,
{
    if k < alphabet.len() && !addable::<C>(kind, s, alphabet[k]) {
        lemma_first_fit::<C>(kind, s, alphabet, k + 1);
    }
}

/// The first whole object that begins with `prefix`.
pub fn minimal_with_prefix<C: CombinatorialObject>(prefix: &C, sorted_alphabet: &Vec<u64>) -> (first: C)
    requires
        prefix.wf(),
        prefix.items().len() <= C::size_of(prefix.kind()),
        never_stuck::<C>(prefix.kind(), sorted_alphabet@),
    ensures
        first.wf(),
        first.kind() == prefix.kind(),
        first.items() == minimal::<C>(prefix.kind(), prefix.items(), sorted_alphabet@),
        first.items().len() == C::size_of(prefix.kind()),
{
    let ghost kind = prefix.kind();
    let mut current = prefix.duplicate();
    let count: usize = sorted_alphabet.len();
    while !current.is_self_contained()
        invariant
            current.wf(),
            current.kind() == kind,
            kind == prefix.kind(),
            count == sorted_alphabet@.len(),
            current.items().len() <= C::size_of(kind),
            never_stuck::<C>(kind, sorted_alphabet@),
            minimal::<C>(kind, current.items(), sorted_alphabet@) == minimal::<C>(
                kind,
                prefix.items(),
                sorted_alphabet@,
            ),
        decreases C::size_of(kind) - current.items().len(),
    {
        let ghost s = current.items();
        proof {
            lemma_first_fit::<C>(kind, s, sorted_alphabet@, 0);
            assert(first_fit::<C>(kind, s, sorted_alphabet@, 0) < count);
        }
        let mut k: usize = 0;
        let mut added = false;
        while k < count && !added
            invariant
                k <= count,
                count == sorted_alphabet@.len(),
                current.wf(),
                current.kind() == kind,
                !added ==> current.items() == s,
                !added ==> first_fit::<C>(kind, s, sorted_alphabet@, 0) == first_fit::<C>(
                    kind,
                    s,
                    sorted_alphabet@,
                    k as int,
                ),
                added ==> current.items() == s.push(sorted_alphabet@[first_fit::<C>(kind, s, sorted_alphabet@, 0)]),
                s.len() < C::size_of(kind),
                first_fit::<C>(kind, s, sorted_alphabet@, 0) < count,
            decreases count - k + if added {
                0int
            } else {
                1int
            },
        {
            let c: u64 = sorted_alphabet[k];
            if current.can_add(&c) {
                current.push(c);
                added = true;
            } else {
                k += 1;
            }
        }
        proof {
            lemma_first_fit::<C>(kind, s, sorted_alphabet@, k as int);
            assert(added);
        }
    }
    proof {
        lemma_first_fit::<C>(kind, current.items(), sorted_alphabet@, 0);
    }
    current
}

/// The product of the numbers from one to `n`.
pub open spec fn fact(n: nat) -> nat
    decreases n,
{
    if n == 0 {
        1
    } else {
        n * fact((n - 1) as nat)
    }
}

/// The factorials do not fall, and that of twenty fits a machine word.
pub proof fn lemma_fact_bounds(a: nat, b: nat)
    requires
        a <= b <= 20,
    ensures
        1 <= fact(a) <= fact(b) <= 2432902008176640000,
{
    assert(fact(0) == 1);
    assert(fact(1) == 1) by {
        assert(fact(1) == 1 * fact(0));
    }
    assert(fact(2) == 2) by {
        assert(fact(2) == 2 * fact(1));
    }
    assert(fact(3) == 6) by {
        assert(fact(3) == 3 * fact(2));
    }
    assert(fact(4) == 24) by {
        assert(fact(4) == 4 * fact(3));
    }
    assert(fact(5) == 120) by {
        assert(fact(5) == 5 * fact(4));
    }
    assert(fact(6) == 720) by {
        assert(fact(6) == 6 * fact(5));
    }
    assert(fact(7) == 5040) by {
        assert(fact(7) == 7 * fact(6));
    }
    assert(fact(8) == 40320) by {
        assert(fact(8) == 8 * fact(7));
    }
    assert(fact(9) == 362880) by {
        assert(fact(9) == 9 * fact(8));
    }
    assert(fact(10) == 3628800) by {
        assert(fact(10) == 10 * fact(9));
    }
    assert(fact(11) == 39916800) by {
        assert(fact(11) == 11 * fact(10));
    }
    assert(fact(12) == 479001600) by {
        assert(fact(12) == 12 * fact(11));
    }
    assert(fact(13) == 6227020800) by {
        assert(fact(13) == 13 * fact(12));
    }
    assert(fact(14) == 87178291200) by {
        assert(fact(14) == 14 * fact(13));
    }
    assert(fact(15) == 1307674368000) by {
        assert(fact(15) == 15 * fact(14));
    }
    assert(fact(16) == 20922789888000) by {
        assert(fact(16) == 16 * fact(15));
    }
    assert(fact(17) == 355687428096000) by {
        assert(fact(17) == 17 * fact(16));
    }
    assert(fact(18) == 6402373705728000) by {
        assert(fact(18) == 18 * fact(17));
    }
    assert(fact(19) == 121645100408832000) by {
        assert(fact(19) == 19 * fact(18));
    }
    assert(fact(20) == 2432902008176640000) by {
        assert(fact(20) == 20 * fact(19));
    }
    lemma_fact_rises(a, b);
    lemma_fact_rises(b, 20);
}

/// A factorial is positive and not above a later one.
pub proof fn lemma_fact_rises(a: nat, b: nat)
    requires
        a <= b,
    ensures
        1 <= fact(a) <= fact(b),
    decreases b,
{
    if a < b {
        lemma_fact_rises(a, (b - 1) as nat);
        assert(fact((b - 1) as nat) <= b * fact((b - 1) as nat)) by (nonlinear_arith)
            requires
                fact((b - 1) as nat) >= 1,
                b >= 1,
        ;
    } else if a > 0 {
        lemma_fact_rises((a - 1) as nat, (a - 1) as nat);
        assert(a * fact((a - 1) as nat) >= 1) by (nonlinear_arith)
            requires
                fact((a - 1) as nat) >= 1,
                a >= 1,
        ;
    }
}

/// The product of the numbers from one to `value`.
pub fn factorial(value: &u64) -> (product: u64)
    requires
        1 <= *value <= 20,
    ensures
        product == fact(*value as nat),
{
    let mut res: u64 = 1;
    let mut i: u64 = 1;
    proof {
        assert(fact(0) == 1);
    }
    while i != *value
        invariant
            1 <= i <= *value <= 20,
            res == fact((i - 1) as nat),
        decreases *value - i,
    {
        proof {
            lemma_fact_bounds(i as nat, 20);
            assert(fact(i as nat) == i * fact((i - 1) as nat));
            assert(res * i == i * res) by (nonlinear_arith);
        }
        res = res * i;
        i = i + 1;
    }
    proof {
        lemma_fact_bounds(i as nat, 20);
        assert(fact(i as nat) == i * fact((i - 1) as nat));
        assert(res * i == i * res) by (nonlinear_arith);
    }
    res * i
}

/// `base` to the power `exp`, by `u64::pow`. That method raises the number
/// to the power and panics, or wraps, where the result does not fit, so the
/// contract asks that it fits.
#[verifier::external_body]
fn u64_pow(base: u64, exp: u32) -> (power: u64)
    requires
        pow(base as int, exp as nat) <= u64::MAX,
    ensures
        power == pow(base as int, exp as nat),
{
    base.pow(exp)
}

/// A sequence of `len` letters out of `states` letters, as far as it is
/// written.
#[derive(Debug)]
pub struct Sequence {
    pub len: usize,
    pub states: u64,
    pub data: Vec<u64>,
}

impl Sequence {
    /// The empty beginning of the sequences of `len` letters out of
    /// `states`.
    pub fn new(len: usize, states: u64) -> (sequence: Self)
        ensures
            sequence.wf(),
            sequence.items().len() == 0,
            sequence.kind() == (len, states),
    {
        Sequence { len, states, data: Vec::new() }
    }
}

impl CombinatorialObject for Sequence {
    type Kind = (usize, u64);

    open spec fn kind(&self) -> (usize, u64) {
        (self.len, self.states)
    }

    open spec fn items(&self) -> Seq<u64> {
        self.data@
    }

    open spec fn wf(&self) -> bool {
        self.data@.len() <= self.len
    }

    open spec fn size_of(kind: (usize, u64)) -> nat {
        kind.0 as nat
    }

    open spec fn may_follow(kind: (usize, u64), s: Seq<u64>, e: u64) -> bool {
        true
    }

    open spec fn countable(kind: (usize, u64), s: Seq<u64>) -> bool {
        &&& s.len() <= kind.0
        &&& kind.0 - s.len() <= u32::MAX
        &&& pow(kind.1 as int, (kind.0 - s.len()) as nat) <= u64::MAX
    }

    open spec fn count_of(kind: (usize, u64), s: Seq<u64>) -> nat {
        pow(kind.1 as int, (kind.0 - s.len()) as nat) as nat
    }

    fn is_self_contained(&self) -> (whole: bool) {
        self.data.len() == self.len
    }

    fn can_add(&self, element: &u64) -> (fits: bool) {
        self.data.len() < self.len
    }

    fn count_successors(&self) -> (count: u64) {
        proof {
            lemma_pow_positive(self.states as int, (self.len - self.data@.len()) as nat);
        }
        u64_pow(self.states, (self.len - self.data.len()) as u32)
    }

    fn push(&mut self, element: u64) {
        self.data.push(element);
    }

    fn pop(&mut self) -> (element: u64) {
        self.data.pop().unwrap()
    }

    fn duplicate(&self) -> (copy: Self) {
        Sequence { len: self.len, states: self.states, data: self.data.clone() }
    }
}

/// A power of a number that is not negative is not negative.
pub proof fn lemma_pow_positive(b: int, e: nat)
    requires
        b >= 0,
    ensures
        pow(b, e) >= 0,
    decreases e,
{
    reveal(pow);
    if e > 0 {
        lemma_pow_positive(b, (e - 1) as nat);
        assert(b * pow(b, (e - 1) as nat) >= 0) by (nonlinear_arith)
            requires
                b >= 0,
                pow(b, (e - 1) as nat) >= 0,
        ;
    }
}

/// What the permutations of one family have in common: their length and
/// the letters that they are made of.
#[derive(Debug)]
pub struct PermutationDescriptor {
    pub len: usize,
    pub sorted_alphabet: Vec<u64>,
}

/// An arrangement of `len` different letters, as far as it is written.
#[derive(Debug)]
pub struct Permutation<'a> {
    pub descriptor: &'a PermutationDescriptor,
    pub data: Vec<u64>,
}

/// The number of letters among the first `k` of the alphabet that do not
/// stand in `s`.
pub open spec fn free_letters(alphabet: Seq<u64>, s: Seq<u64>, k: int) -> nat
    decreases k,
{
    if k <= 0 {
        0
    } else {
        free_letters(alphabet, s, k - 1) + if s.contains(alphabet[k - 1]) {
            0nat
        } else {
            1nat
        }
    }
}

/// The number of letters of the alphabet that may be added to `s`.
pub open spec fn choices(kind: (usize, Seq<u64>), s: Seq<u64>) -> nat {
    if s.len() < kind.0 {
        free_letters(kind.1, s, kind.1.len() as int)
    } else {
        0
    }
}

/// There are no more free letters than letters.
pub proof fn lemma_free_letters_bound(alphabet: Seq<u64>, s: Seq<u64>, k: int)
    requires
        0 <= k,
    ensures
        free_letters(alphabet, s, k) <= k,
    decreases k,
{
    if k > 0 {
        lemma_free_letters_bound(alphabet, s, k - 1);
    }
}

impl<'a> Permutation<'a> {
    /// The empty beginning of the permutations that `descriptor` describes.
    pub fn new(descriptor: &'a PermutationDescriptor) -> (permutation: Self)
        ensures
            permutation.wf(),
            permutation.items().len() == 0,
            permutation.kind() == (descriptor.len, descriptor.sorted_alphabet@),
    {
        Permutation { descriptor, data: Vec::new() }
    }
}

impl<'a> CombinatorialObject for Permutation<'a> {
    type Kind = (usize, Seq<u64>);

    open spec fn kind(&self) -> (usize, Seq<u64>) {
        (self.descriptor.len, self.descriptor.sorted_alphabet@)
    }

    open spec fn items(&self) -> Seq<u64> {
        self.data@
    }

    open spec fn wf(&self) -> bool {
        self.data@.len() <= self.descriptor.len
    }

    open spec fn size_of(kind: (usize, Seq<u64>)) -> nat {
        kind.0 as nat
    }

    open spec fn may_follow(kind: (usize, Seq<u64>), s: Seq<u64>, e: u64) -> bool {
        !s.contains(e)
    }

    open spec fn countable(kind: (usize, Seq<u64>), s: Seq<u64>) -> bool {
        1 <= choices(kind, s) <= 20
    }

    open spec fn count_of(kind: (usize, Seq<u64>), s: Seq<u64>) -> nat {
        fact(choices(kind, s))
    }

    fn is_self_contained(&self) -> (whole: bool) {
        self.data.len() == self.descriptor.len
    }

    fn can_add(&self, element: &u64) -> (fits: bool) {
        if self.data.len() < self.descriptor.len {
            let size: usize = self.data.len();
            let mut i: usize = 0;
            while i < size && self.data[i] != *element
                invariant
                    i <= size,
                    size == self.data@.len(),
                    forall|j: int| 0 <= j < i ==> self.data@[j] != *element,
                decreases size - i,
            {
                i += 1;
            }
            proof {
                if i < size {
                    assert(self.data@.contains(*element));
                }
            }
            i == size
        } else {
            false
        }
    }

    fn count_successors(&self) -> (count: u64) {
        let letters: usize = self.descriptor.sorted_alphabet.len();
        let mut positions: u64 = 0;
        let mut k: usize = 0;
        while k < letters
            invariant
                k <= letters,
                letters == self.descriptor.sorted_alphabet@.len(),
                self.wf(),
                positions <= k,
                self.data@.len() < self.descriptor.len ==> positions == free_letters(
                    self.descriptor.sorted_alphabet@,
                    self.data@,
                    k as int,
                ),
                self.data@.len() >= self.descriptor.len ==> positions == 0,
                choices(self.kind(), self.items()) <= 20,
            decreases letters - k,
        {
            proof {
                lemma_free_letters_bound(self.descriptor.sorted_alphabet@, self.data@, k as int);
            }
            if self.can_add(&self.descriptor.sorted_alphabet[k]) {
                positions += 1;
            }
            k += 1;
        }
        factorial(&positions)
    }

    fn push(&mut self, element: u64) {
        self.data.push(element);
    }

    fn pop(&mut self) -> (element: u64) {
        self.data.pop().unwrap()
    }

    fn duplicate(&self) -> (copy: Self) {
        Permutation { descriptor: self.descriptor, data: self.data.clone() }
    }
}

/// The letters `s` arise from the letters `s0` by adding letters of the
/// alphabet, each of which may be added when its turn comes.
pub open spec fn grown<C: CombinatorialObject>(kind: C::Kind, alphabet: Seq<u64>, s0: Seq<u64>, s: Seq<u64>) -> bool
    decreases s.len(),
{
    s == s0 || (s.len() > s0.len() && s.len() > 0 && alphabet.contains(s.last()) && addable::<C>(
        kind,
        s.drop_last(),
        s.last(),
    ) && grown::<C>(kind, alphabet, s0, s.drop_last()))
}

/// Wherever the search for an object by its number counts, the count is
/// the number of whole objects: for every beginning that arises from `s0`
/// by one letter more than a beginning with two whole objects or more.
pub open spec fn well_counted<C: CombinatorialObject>(kind: C::Kind, alphabet: Seq<u64>, s0: Seq<u64>) -> bool {
    forall|s: Seq<u64>|
        s.len() > s0.len() && s.len() > 0 && #[trigger] grown::<C>(kind, alphabet, s0, s) && all_from::<C>(
            kind,
            s.drop_last(),
            alphabet,
        ).len() >= 2 ==> C::countable(kind, s) && C::count_of(kind, s) == all_from::<C>(kind, s, alphabet).len()
}

/// A whole object is the only whole object that begins with it.
pub proof fn lemma_whole_alone<C: CombinatorialObject>(kind: C::Kind, s: Seq<u64>, alphabet: Seq<u64>, k: int)
    requires
        s.len() >= C::size_of(kind),
    ensures
        from_letters::<C>(kind, s, alphabet, k).len() == 0,
    decreases k,
{
    if 0 < k <= alphabet.len() {
        lemma_whole_alone::<C>(kind, s, alphabet, k - 1);
    }
}

/// The whole objects of the first letters stand first among those of more
/// letters.
pub proof fn lemma_from_letters_grow<C: CombinatorialObject>(
    kind: C::Kind,
    s: Seq<u64>,
    alphabet: Seq<u64>,
    j: int,
    k: int,
)
    requires
        0 <= j <= k <= alphabet.len(),
    ensures
        from_letters::<C>(kind, s, alphabet, j).len() <= from_letters::<C>(kind, s, alphabet, k).len(),
        forall|i: int|
            0 <= i < from_letters::<C>(kind, s, alphabet, j).len() ==> from_letters::<C>(kind, s, alphabet, k)[i]
                == from_letters::<C>(kind, s, alphabet, j)[i],
    decreases k - j,
{
    if j < k {
        lemma_from_letters_grow::<C>(kind, s, alphabet, j, k - 1);
    }
}

/// Where no beginning is stuck, some whole object begins with `s`, and the
/// first of them is the one that takes the first letter at every step.
pub proof fn lemma_minimal_is_first<C: CombinatorialObject>(kind: C::Kind, s: Seq<u64>, alphabet: Seq<u64>)
    requires
        s.len() <= C::size_of(kind),
        never_stuck::<C>(kind, alphabet),
    ensures
        all_from::<C>(kind, s, alphabet).len() >= 1,
        all_from::<C>(kind, s, alphabet)[0] == minimal::<C>(kind, s, alphabet),
    decreases C::size_of(kind) - s.len(),
{
    let n = alphabet.len() as int;
    if s.len() == C::size_of(kind) {
        lemma_whole_alone::<C>(kind, s, alphabet, n);
    } else {
        let at = first_fit::<C>(kind, s, alphabet, 0);
        lemma_first_fit::<C>(kind, s, alphabet, 0);
        let c = alphabet[at];
        lemma_minimal_is_first::<C>(kind, s.push(c), alphabet);
        lemma_none_before::<C>(kind, s, alphabet, at);
        lemma_from_letters_grow::<C>(kind, s, alphabet, at + 1, n);
        assert(from_letters::<C>(kind, s, alphabet, at + 1) =~= all_from::<C>(kind, s.push(c), alphabet));
    }
}

/// The letters that may not be added give no whole objects.
pub proof fn lemma_none_before<C: CombinatorialObject>(kind: C::Kind, s: Seq<u64>, alphabet: Seq<u64>, k: int)
    requires
        0 <= k <= alphabet.len(),
        forall|j: int| 0 <= j < k ==> !addable::<C>(kind, s, #[trigger] alphabet[j]),
    ensures
        from_letters::<C>(kind, s, alphabet, k).len() == 0,
    decreases k,
{
    if k > 0 {
        lemma_none_before::<C>(kind, s, alphabet, k - 1);
    }
}

/// The whole object that has the number `number`, counted from zero, among
/// those that begin with `prefix`, in the order of the alphabet.
pub fn combinatorial_object_by_number<C: CombinatorialObject>(number: u64, prefix: &C, sorted_alphabet: &Vec<u64>) -> (found: C)
    requires
        prefix.wf(),
        prefix.items().len() <= C::size_of(prefix.kind()),
        never_stuck::<C>(prefix.kind(), sorted_alphabet@),
        well_counted::<C>(prefix.kind(), sorted_alphabet@, prefix.items()),
        number < all_from::<C>(prefix.kind(), prefix.items(), sorted_alphabet@).len() <= u64::MAX,
    ensures
        found.wf(),
        found.kind() == prefix.kind(),
        found.items() == all_from::<C>(prefix.kind(), prefix.items(), sorted_alphabet@)[number as int],
{
    let ghost kind = prefix.kind();
    let ghost s0 = prefix.items();
    let ghost alphabet = sorted_alphabet@;
    let ghost total = all_from::<C>(kind, s0, alphabet);
    let count: usize = sorted_alphabet.len();
    let mut parent = prefix.duplicate();
    let mut smallest_index_with_parent: u64 = 0;
    while smallest_index_with_parent != number
        invariant
            parent.wf(),
            parent.kind() == kind,
            kind == prefix.kind(),
            s0 == prefix.items(),
            alphabet == sorted_alphabet@,
            count == alphabet.len(),
            total == all_from::<C>(kind, s0, alphabet),
            parent.items().len() <= C::size_of(kind),
            never_stuck::<C>(kind, alphabet),
            well_counted::<C>(kind, alphabet, s0),
            grown::<C>(kind, alphabet, s0, parent.items()),
            parent.items().len() >= s0.len(),
            smallest_index_with_parent <= number < total.len() <= u64::MAX,
            smallest_index_with_parent + all_from::<C>(kind, parent.items(), alphabet).len() <= total.len(),
            number - smallest_index_with_parent < all_from::<C>(kind, parent.items(), alphabet).len(),
            all_from::<C>(kind, parent.items(), alphabet)[number - smallest_index_with_parent] == total[number as int],
        decreases C::size_of(kind) - parent.items().len(),
    {
        let ghost p = parent.items();
        let ghost base = smallest_index_with_parent;
        let ghost here = all_from::<C>(kind, p, alphabet);
        proof {
            if p.len() == C::size_of(kind) {
                lemma_whole_alone::<C>(kind, p, alphabet, count as int);
            }
            assert(here =~= from_letters::<C>(kind, p, alphabet, count as int));
        }
        let mut k: usize = 0;
        let mut taken = false;
        while k < count && !taken
            invariant
                k <= count,
                count == alphabet.len(),
                alphabet == sorted_alphabet@,
                parent.wf(),
                parent.kind() == kind,
                p.len() < C::size_of(kind),
                p.len() >= s0.len(),
                grown::<C>(kind, alphabet, s0, p),
                well_counted::<C>(kind, alphabet, s0),
                here == all_from::<C>(kind, p, alphabet),
                here == from_letters::<C>(kind, p, alphabet, count as int),
                here.len() >= 2,
                base <= number < total.len() <= u64::MAX,
                base + here.len() <= total.len(),
                number - base < here.len(),
                here[number - base] == total[number as int],
                !taken ==> parent.items() == p,
                !taken ==> smallest_index_with_parent == base + from_letters::<C>(kind, p, alphabet, k as int).len(),
                !taken ==> smallest_index_with_parent <= number,
                taken ==> parent.items().len() == p.len() + 1,
                taken ==> grown::<C>(kind, alphabet, s0, parent.items()),
                taken ==> smallest_index_with_parent <= number,
                taken ==> smallest_index_with_parent + all_from::<C>(kind, parent.items(), alphabet).len()
                    <= total.len(),
                taken ==> number - smallest_index_with_parent < all_from::<C>(kind, parent.items(), alphabet).len(),
                taken ==> all_from::<C>(kind, parent.items(), alphabet)[number - smallest_index_with_parent]
                    == total[number as int],
            decreases count - k + if taken {
                0int
            } else {
                1int
            },
        {
            let c: u64 = sorted_alphabet[k];
            let ghost before = from_letters::<C>(kind, p, alphabet, k as int);
            proof {
                lemma_from_letters_grow::<C>(kind, p, alphabet, k + 1, count as int);
            }
            if parent.can_add(&c) {
                parent.push(c);
                let ghost child = p.push(c);
                let ghost below = all_from::<C>(kind, child, alphabet);
                proof {
                    assert(child.drop_last() =~= p);
                    assert(alphabet.contains(c)) by {
                        assert(alphabet[k as int] == c);
                    }
                    assert(grown::<C>(kind, alphabet, s0, child));
                    assert(from_letters::<C>(kind, p, alphabet, k + 1) == before + below);
                }
                let objects_with_new_prefix = parent.count_successors();
                if smallest_index_with_parent + objects_with_new_prefix > number {
                    taken = true;
                    proof {
                        assert(here[number - base] == (before + below)[number - base]);
                    }
                } else {
                    smallest_index_with_parent += objects_with_new_prefix;
                    parent.pop();
                    k += 1;
                }
            } else {
                proof {
                    assert(from_letters::<C>(kind, p, alphabet, k + 1) =~= before);
                }
                k += 1;
            }
        }
        proof {
            assert(taken);
        }
    }
    proof {
        lemma_minimal_is_first::<C>(kind, parent.items(), alphabet);
    }
    minimal_with_prefix(&parent, sorted_alphabet)
}

/// The letters of `s` are letters of the alphabet, each at most once.
pub open spec fn tidy(alphabet: Seq<u64>, s: Seq<u64>) -> bool {
    &&& s.no_duplicates()
    &&& forall|i: int| 0 <= i < s.len() ==> alphabet.contains(#[trigger] s[i])
}

/// One letter more in `s` leaves one letter less free, from its place in
/// the alphabet on.
pub proof fn lemma_free_letters_push(alphabet: Seq<u64>, s: Seq<u64>, e: u64, at: int, k: int)
    requires
        alphabet.no_duplicates(),
        0 <= at < alphabet.len(),
        alphabet[at] == e,
        !s.contains(e),
        0 <= k <= alphabet.len(),
    ensures
        free_letters(alphabet, s.push(e), k) + (if at < k {
            1int
        } else {
            0int
        }) == free_letters(alphabet, s, k),
    decreases k,
{
    if k > 0 {
        lemma_free_letters_push(alphabet, s, e, at, k - 1);
        let letter = alphabet[k - 1];
        let longer = s.push(e);
        if letter == e {
            assert(k - 1 == at);
            assert(longer[s.len() as int] == e);
        } else {
            if s.contains(letter) {
                let i = s.index_of(letter);
                assert(longer[i] == letter);
            }
            if longer.contains(letter) {
                let i = longer.index_of(letter);
                assert(s[i] == letter);
            }
        }
    }
}

/// Of an alphabet of different letters, as many are free as `s` leaves.
pub proof fn lemma_free_letters_count(alphabet: Seq<u64>, s: Seq<u64>)
    requires
        alphabet.no_duplicates(),
        tidy(alphabet, s),
    ensures
        free_letters(alphabet, s, alphabet.len() as int) + s.len() == alphabet.len(),
    decreases s.len(),
{
    let n = alphabet.len() as int;
    if s.len() == 0 {
        lemma_free_letters_of_none(alphabet, s, n);
    } else {
        let front = s.drop_last();
        let e = s.last();
        assert(tidy(alphabet, front)) by {
            assert forall|i: int| 0 <= i < front.len() implies alphabet.contains(#[trigger] front[i]) by {
                assert(front[i] == s[i]);
            }
        }
        lemma_free_letters_count(alphabet, front);
        assert(alphabet.contains(s[s.len() - 1]));
        let at = alphabet.index_of(e);
        assert(!front.contains(e)) by {
            if front.contains(e) {
                let i = front.index_of(e);
                assert(s[i] == s[s.len() - 1]);
            }
        }
        assert(front.push(e) =~= s);
        lemma_free_letters_push(alphabet, front, e, at, n);
    }
}

/// Where `s` is empty every letter is free.
pub proof fn lemma_free_letters_of_none(alphabet: Seq<u64>, s: Seq<u64>, k: int)
    requires
        s.len() == 0,
        0 <= k,
    ensures
        free_letters(alphabet, s, k) == k,
    decreases k,
{
    if k > 0 {
        lemma_free_letters_of_none(alphabet, s, k - 1);
    }
}

/// What the permutations of different letters are counted by: the whole
/// permutations that begin with `s` are as many as the factorial of the
/// number of letters that are left.
pub proof fn lemma_permutations_count<'a>(kind: (usize, Seq<u64>), s: Seq<u64>)
    requires
        kind.1.no_duplicates(),
        kind.1.len() == kind.0,
        tidy(kind.1, s),
        s.len() <= kind.0,
    ensures
        all_from::<Permutation<'a>>(kind, s, kind.1).len() == fact((kind.0 - s.len()) as nat),
        s.len() < kind.0 ==> choices(kind, s) == kind.0 - s.len(),
    decreases kind.0 - s.len(), kind.1.len() + 1,
{
    let n = kind.1.len() as int;
    lemma_free_letters_count(kind.1, s);
    if s.len() == kind.0 {
        lemma_whole_alone::<Permutation<'a>>(kind, s, kind.1, n);
    } else {
        lemma_permutations_below(kind, s, n);
        let m = (kind.0 - s.len()) as nat;
        assert(fact(m) == m * fact((m - 1) as nat));
    }
}

/// The whole permutations that begin with `s` and one of the first `k`
/// letters are as many as those letters that are free, times the factorial
/// of the number of letters that are left after one more.
pub proof fn lemma_permutations_below<'a>(kind: (usize, Seq<u64>), s: Seq<u64>, k: int)
    requires
        kind.1.no_duplicates(),
        kind.1.len() == kind.0,
        tidy(kind.1, s),
        s.len() < kind.0,
        0 <= k <= kind.1.len(),
    ensures
        from_letters::<Permutation<'a>>(kind, s, kind.1, k).len() == free_letters(kind.1, s, k) * fact(
            (kind.0 - s.len() - 1) as nat,
        ),
    decreases kind.0 - s.len(), k,
{
    if k > 0 {
        lemma_permutations_below(kind, s, k - 1);
        let e = kind.1[k - 1];
        let rest = fact((kind.0 - s.len() - 1) as nat);
        let before = free_letters(kind.1, s, k - 1);
        if !s.contains(e) {
            let child = s.push(e);
            assert(tidy(kind.1, child)) by {
                assert forall|i: int, j: int| 0 <= i < j < child.len() implies child[i] != child[j] by {
                    if j == s.len() {
                        assert(s.contains(s[i]));
                    }
                }
                assert forall|i: int| 0 <= i < child.len() implies kind.1.contains(#[trigger] child[i]) by {
                    if i < s.len() {
                        assert(child[i] == s[i]);
                    } else {
                        assert(kind.1[k - 1] == e);
                    }
                }
            }
            lemma_permutations_count(kind, child);
            assert((before + 1) * rest == before * rest + rest) by (nonlinear_arith);
            assert(addable::<Permutation<'a>>(kind, s, e));
            assert(from_letters::<Permutation<'a>>(kind, s, kind.1, k) == from_letters::<Permutation<'a>>(
                kind,
                s,
                kind.1,
                k - 1,
            ) + all_from::<Permutation<'a>>(kind, child, kind.1));
            assert(free_letters(kind.1, s, k) == before + 1);
        } else {
            assert(!addable::<Permutation<'a>>(kind, s, e));
            assert(from_letters::<Permutation<'a>>(kind, s, kind.1, k) =~= from_letters::<Permutation<'a>>(
                kind,
                s,
                kind.1,
                k - 1,
            ));
            assert(free_letters(kind.1, s, k) == before);
        }
    } else {
        assert(0 * fact((kind.0 - s.len() - 1) as nat) == 0) by (nonlinear_arith);
    }
}

/// To fewer letters than an alphabet of different letters has, one of its
/// letters can be added.
pub proof fn lemma_permutations_never_stuck<'a>(kind: (usize, Seq<u64>))
    requires
        kind.1.no_duplicates(),
        kind.0 <= kind.1.len(),
    ensures
        never_stuck::<Permutation<'a>>(kind, kind.1),
{
    let alphabet = kind.1;
    let n = alphabet.len() as int;
    assert forall|s: Seq<u64>| s.len() < kind.0 implies #[trigger] first_fit::<Permutation<'a>>(
        kind,
        s,
        alphabet,
        0,
    ) < alphabet.len() by {
        lemma_first_fit::<Permutation<'a>>(kind, s, alphabet, 0);
        if first_fit::<Permutation<'a>>(kind, s, alphabet, 0) >= n {
            let f = |k: int| s.index_of(alphabet[k]);
            assert forall|k: int| 0 <= k < n implies 0 <= #[trigger] f(k) < s.len() by {
                assert(!addable::<Permutation<'a>>(kind, s, alphabet[k]));
                assert(s.contains(alphabet[k]));
            }
            assert forall|i: int, j: int| 0 <= i < j < n implies #[trigger] f(i) != #[trigger] f(j) by {
                assert(!addable::<Permutation<'a>>(kind, s, alphabet[i]));
                assert(!addable::<Permutation<'a>>(kind, s, alphabet[j]));
                assert(s.contains(alphabet[i]));
                assert(s.contains(alphabet[j]));
                assert(s[f(i)] == alphabet[i]);
                assert(s[f(j)] == alphabet[j]);
            }
            lemma_injection_bound(f, n, s.len() as int);
        }
    }
}

/// The permutations of at most twenty different letters are counted as
/// the search by number needs it.
pub proof fn lemma_permutations_well_counted<'a>(kind: (usize, Seq<u64>))
    requires
        kind.1.no_duplicates(),
        kind.1.len() == kind.0,
        kind.0 <= 20,
    ensures
        well_counted::<Permutation<'a>>(kind, kind.1, Seq::empty()),
        never_stuck::<Permutation<'a>>(kind, kind.1),
        all_from::<Permutation<'a>>(kind, Seq::empty(), kind.1).len() == fact(kind.0 as nat),
{
    let alphabet = kind.1;
    let none = Seq::<u64>::empty();
    lemma_permutations_never_stuck(kind);
    lemma_permutations_count(kind, none);
    assert forall|s: Seq<u64>|
        s.len() > none.len() && s.len() > 0 && #[trigger] grown::<Permutation<'a>>(kind, alphabet, none, s)
            && all_from::<Permutation<'a>>(kind, s.drop_last(), alphabet).len() >= 2 implies Permutation::<
        'a,
    >::countable(kind, s) && Permutation::<'a>::count_of(kind, s) == all_from::<Permutation<'a>>(
        kind,
        s,
        alphabet,
    ).len() by {
        lemma_grown_is_tidy(kind, s);
        let front = s.drop_last();
        lemma_grown_is_tidy(kind, front);
        lemma_permutations_count(kind, front);
        lemma_permutations_count(kind, s);
        let m = (kind.0 - front.len()) as nat;
        if m <= 1 {
            assert(fact(1) == 1 * fact(0));
        }
        lemma_fact_bounds((kind.0 - s.len()) as nat, 20);
    }
}

/// What grows from nothing by letters that may be added is tidy and no
/// longer than a whole permutation.
pub proof fn lemma_grown_is_tidy<'a>(kind: (usize, Seq<u64>), s: Seq<u64>)
    requires
        grown::<Permutation<'a>>(kind, kind.1, Seq::empty(), s),
    ensures
        tidy(kind.1, s),
        s.len() <= kind.0,
    decreases s.len(),
{
    if s.len() > 0 {
        let front = s.drop_last();
        lemma_grown_is_tidy(kind, front);
        assert forall|i: int, j: int| 0 <= i < j < s.len() implies s[i] != s[j] by {
            if j == s.len() - 1 {
                assert(front[i] == s[i]);
                assert(front.contains(s[i]));
            } else {
                assert(front[i] != front[j]);
            }
        }
        assert forall|i: int| 0 <= i < s.len() implies kind.1.contains(#[trigger] s[i]) by {
            if i < s.len() - 1 {
                assert(front[i] == s[i]);
            }
        }
    }
}

/// What the sequences are counted by: the whole sequences that begin with
/// `s` are as many as the number of letters to the power of the number of
/// places that are left.
pub proof fn lemma_sequences_count(kind: (usize, u64), alphabet: Seq<u64>, s: Seq<u64>)
    requires
        s.len() <= kind.0,
    ensures
        all_from::<Sequence>(kind, s, alphabet).len() == pow(alphabet.len() as int, (kind.0 - s.len()) as nat),
    decreases kind.0 - s.len(), alphabet.len() + 1,
{
    let n = alphabet.len() as int;
    reveal(pow);
    if s.len() == kind.0 {
        lemma_whole_alone::<Sequence>(kind, s, alphabet, n);
    } else {
        lemma_sequences_below(kind, alphabet, s, n);
    }
}

/// The whole sequences that begin with `s` and one of the first `k`
/// letters are `k` times as many as those that begin with `s` and one
/// letter.
pub proof fn lemma_sequences_below(kind: (usize, u64), alphabet: Seq<u64>, s: Seq<u64>, k: int)
    requires
        s.len() < kind.0,
        0 <= k <= alphabet.len(),
    ensures
        from_letters::<Sequence>(kind, s, alphabet, k).len() == k * pow(
            alphabet.len() as int,
            (kind.0 - s.len() - 1) as nat,
        ),
    decreases kind.0 - s.len(), k,
{
    let rest = pow(alphabet.len() as int, (kind.0 - s.len() - 1) as nat);
    if k > 0 {
        lemma_sequences_below(kind, alphabet, s, k - 1);
        let child = s.push(alphabet[k - 1]);
        lemma_sequences_count(kind, alphabet, child);
        assert(addable::<Sequence>(kind, s, alphabet[k - 1]));
        assert(from_letters::<Sequence>(kind, s, alphabet, k) == from_letters::<Sequence>(kind, s, alphabet, k - 1)
            + all_from::<Sequence>(kind, child, alphabet));
        assert(k * rest == (k - 1) * rest + rest) by (nonlinear_arith);
    } else {
        assert(0 * rest == 0) by (nonlinear_arith);
    }
}

/// The sequences over an alphabet of as many letters as the kind names are
/// counted as the search by number needs it, where their number fits a
/// machine word.
pub proof fn lemma_sequences_well_counted(kind: (usize, u64), alphabet: Seq<u64>)
    requires
        alphabet.len() == kind.1,
        kind.1 >= 1,
        kind.0 <= u32::MAX,
        pow(kind.1 as int, kind.0 as nat) <= u64::MAX,
    ensures
        well_counted::<Sequence>(kind, alphabet, Seq::empty()),
        never_stuck::<Sequence>(kind, alphabet),
        all_from::<Sequence>(kind, Seq::empty(), alphabet).len() == pow(kind.1 as int, kind.0 as nat),
{
    let none = Seq::<u64>::empty();
    lemma_sequences_count(kind, alphabet, none);
    assert forall|s: Seq<u64>| s.len() < kind.0 implies #[trigger] first_fit::<Sequence>(kind, s, alphabet, 0)
        < alphabet.len() by {
        assert(addable::<Sequence>(kind, s, alphabet[0]));
    }
    assert forall|s: Seq<u64>|
        s.len() > none.len() && s.len() > 0 && #[trigger] grown::<Sequence>(kind, alphabet, none, s)
            && all_from::<Sequence>(kind, s.drop_last(), alphabet).len() >= 2 implies Sequence::countable(kind, s)
        && Sequence::count_of(kind, s) == all_from::<Sequence>(kind, s, alphabet).len() by {
        lemma_grown_is_short(kind, alphabet, s);
        lemma_sequences_count(kind, alphabet, s);
        lemma_pow_increases(kind.1 as nat, (kind.0 - s.len()) as nat, kind.0 as nat);
        lemma_pow_positive(kind.1 as int, (kind.0 - s.len()) as nat);
    }
}

/// What grows from nothing by letters that may be added is no longer than
/// a whole sequence.
pub proof fn lemma_grown_is_short(kind: (usize, u64), alphabet: Seq<u64>, s: Seq<u64>)
    requires
        grown::<Sequence>(kind, alphabet, Seq::empty(), s),
    ensures
        s.len() <= kind.0,
{
}

} // verus!
