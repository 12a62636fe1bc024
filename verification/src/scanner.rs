//! Reading words, separated by white space, from bytes that were read before.

use crate::reader::decimal;
use crate::reader::is_digit;
use crate::reader::lemma_decimal_mono;
use crate::reader::lemma_skip_len_is;
use crate::reader::skip_len;
use vstd::prelude::*;

verus! {

/// The byte is a blank, a tab, a line feed, a vertical tab, a form feed or
/// a carriage return.
pub open spec fn is_space(c: u8) -> bool {
    c == 9 || c == 10 || c == 11 || c == 12 || c == 13 || c == 32
}

/// The test for white space.
pub open spec fn space_test() -> spec_fn(u8) -> bool {
    |c: u8| is_space(c)
}

/// The test for a byte that is no white space.
pub open spec fn not_space_test() -> spec_fn(u8) -> bool {
    |c: u8| !is_space(c)
}

/// Where the next word of `rest` starts.
pub open spec fn token_start(rest: Seq<u8>) -> int {
    skip_len(rest, not_space_test())
}

/// The next word of `rest`: the bytes from the first one that is no white
/// space up to the next white space.
pub open spec fn token_bytes(rest: Seq<u8>) -> Seq<u8> {
    let from = rest.skip(token_start(rest));
    from.take(skip_len(from, space_test()))
}

/// The digits of a word that writes a number without sign, or with a plus
/// sign before it.
pub open spec fn unsigned_digits(word: Seq<u8>) -> Seq<u8> {
    if word.len() > 0 && word[0] == 43 {
        word.drop_first()
    } else {
        word
    }
}

/// The word is a row of digits, with or without a plus sign before it.
pub open spec fn writes_unsigned(word: Seq<u8>) -> bool {
    let digits = unsigned_digits(word);
    digits.len() > 0 && forall|i: int| 0 <= i < digits.len() ==> is_digit(#[trigger] digits[i])
}

/// A value that a word can be read as.
pub trait Token: Sized {
    /// The value that the word writes, if it writes one.
    spec fn parse_spec(word: Seq<u8>) -> Option<Self>;

    fn parse(word: &Vec<u8>) -> (r: Option<Self>)
        ensures
            r == Self::parse_spec(word@),
    ;
}

/// Reads the bytes of `word` from place `from` on as a row of digits.
pub fn parse_digits(word: &Vec<u8>, from: usize) -> (r: Option<u64>)
    requires
        from <= word@.len(),
    ensures
        r == ({
            let digits = word@.skip(from as int);
            if digits.len() > 0 && (forall|i: int| 0 <= i < digits.len() ==> is_digit(#[trigger] digits[i]))
                && decimal(digits) <= u64::MAX {
                Some(decimal(digits) as u64)
            } else {
                None
            }
        }),
{
    let ghost digits = word@.skip(from as int);
    let size: usize = word.len();
    if from == size {
        return None;
    }
    let mut num: u64 = 0;
    let mut i: usize = from;
    proof {
        assert(digits.take(0) =~= Seq::<u8>::empty());
    }
    while i < size
        invariant
            from <= i <= size,
            size == word@.len(),
            digits == word@.skip(from as int),
            forall|j: int| 0 <= j < i - from ==> is_digit(#[trigger] digits[j]),
            num == decimal(digits.take(i - from)),
        decreases size - i,
    {
        let c = word[i];
        assert(c == digits[i - from]);
        if c < 48 || c > 57 {
            return None;
        }
        proof {
            assert(digits.take(i - from + 1).drop_last() =~= digits.take(i - from));
        }
        let d = (c - 48) as u64;
        match num.checked_mul(10) {
            Some(tenfold) => match tenfold.checked_add(d) {
                Some(next) => {
                    num = next;
                },
                None => {
                    proof {
                        lemma_decimal_grows(digits, i - from + 1);
                    }
                    return None;
                },
            },
            None => {
                proof {
                    lemma_decimal_grows(digits, i - from + 1);
                }
                return None;
            },
        }
        i += 1;
    }
    proof {
        assert(digits.take(digits.len() as int) =~= digits);
    }
    Some(num)
}

/// A row of bytes that starts with digits writes, if it is a row of digits
/// at all, at least what those digits write.
pub proof fn lemma_decimal_grows(digits: Seq<u8>, i: int)
    requires
        0 <= i <= digits.len(),
    ensures
        (forall|j: int| 0 <= j < digits.len() ==> is_digit(#[trigger] digits[j])) ==> decimal(
            digits.take(i),
        ) <= decimal(digits),
{
    if forall|j: int| 0 <= j < digits.len() ==> is_digit(#[trigger] digits[j]) {
        lemma_decimal_mono(digits, i);
    }
}

/// Reads a word as a number without sign.
pub fn parse_unsigned(word: &Vec<u8>) -> (r: Option<u64>)
    ensures
        r == if writes_unsigned(word@) && decimal(unsigned_digits(word@)) <= u64::MAX {
            Some(decimal(unsigned_digits(word@)) as u64)
        } else {
            None
        },
{
    if word.len() > 0 && word[0] == 43 {
        proof {
            assert(word@.skip(1) =~= word@.drop_first());
        }
        parse_digits(word, 1)
    } else {
        proof {
            assert(word@.skip(0) =~= word@);
        }
        parse_digits(word, 0)
    }
}

impl Token for u64 {
    open spec fn parse_spec(word: Seq<u8>) -> Option<Self> {
        if writes_unsigned(word) && decimal(unsigned_digits(word)) <= u64::MAX {
            Some(decimal(unsigned_digits(word)) as u64)
        } else {
            None
        }
    }

    fn parse(word: &Vec<u8>) -> (r: Option<Self>) {
        parse_unsigned(word)
    }
}

impl Token for usize {
    open spec fn parse_spec(word: Seq<u8>) -> Option<Self> {
        if writes_unsigned(word) && decimal(unsigned_digits(word)) <= usize::MAX {
            Some(decimal(unsigned_digits(word)) as usize)
        } else {
            None
        }
    }

    fn parse(word: &Vec<u8>) -> (r: Option<Self>) {
        match parse_unsigned(word) {
            Some(number) => if number <= usize::MAX as u64 {
                Some(number as usize)
            } else {
                None
            },
            None => None,
        }
    }
}

/// Bytes that were read, and the place up to which they are used.
pub struct Scanner {
    pub input: Vec<u8>,
    pub position: usize,
}

impl Scanner {
    /// The bytes that are not used yet.
    pub open spec fn rest(&self) -> Seq<u8> {
        self.input@.skip(self.position as int)
    }

    /// The place of reading is within the input or at its end.
    pub open spec fn wf(&self) -> bool {
        self.position <= self.input@.len()
    }

    /// A scanner of the bytes that were read.
    pub fn new(input: Vec<u8>) -> (scanner: Self)
        ensures
            scanner.wf(),
            scanner.input == input,
            scanner.position == 0,
    {
        Scanner { input, position: 0 }
    }

    /// Steps over white space and returns the word that follows; the word
    /// is empty where only white space was left.
    pub fn next_word(&mut self) -> (word: Vec<u8>)
        requires
            old(self).wf(),
        ensures
            final(self).wf(),
            final(self).input == old(self).input,
            word@ == token_bytes(old(self).rest()),
            final(self).position == old(self).position + token_start(old(self).rest()) + word@.len(),
    {
        let ghost rest = self.rest();
        let size: usize = self.input.len();
        while self.position < size && is_space_byte(self.input[self.position])
            invariant
                self.wf(),
                self.input == old(self).input,
                size == self.input@.len(),
                rest == old(self).rest(),
                old(self).position <= self.position,
                forall|j: int| 0 <= j < self.position - old(self).position ==> is_space(#[trigger] rest[j]),
            decreases size - self.position,
        {
            assert(rest[self.position - old(self).position] == self.input@[self.position as int]);
            self.position += 1;
        }
        let ghost start = self.position - old(self).position;
        let ghost from = rest.skip(start);
        proof {
            if self.position < size {
                assert(rest[start] == self.input@[self.position as int]);
            }
            lemma_skip_len_is(rest, not_space_test(), start);
            assert(from.take(0) =~= Seq::<u8>::empty());
        }
        let mut word: Vec<u8> = Vec::new();
        while self.position < size && !is_space_byte(self.input[self.position])
            invariant
                self.wf(),
                self.input == old(self).input,
                size == self.input@.len(),
                rest == old(self).rest(),
                from == rest.skip(start),
                0 <= start <= rest.len(),
                self.position == old(self).position + start + word@.len(),
                word@ == from.take(word@.len() as int),
                forall|j: int| 0 <= j < word@.len() ==> !is_space(#[trigger] from[j]),
            decreases size - self.position,
        {
            let c = self.input[self.position];
            assert(from[word@.len() as int] == c);
            word.push(c);
            assert(word@ =~= from.take(word@.len() as int));
            self.position += 1;
        }
        proof {
            if self.position < size {
                assert(from[word@.len() as int] == self.input@[self.position as int]);
            }
            lemma_skip_len_is(from, space_test(), word@.len() as int);
        }
        word
    }

    /// Reads the next word as a value of type `T`.
    pub fn token<T: Token>(&mut self) -> (value: T)
        requires
            old(self).wf(),
            T::parse_spec(token_bytes(old(self).rest())).is_some(),
        ensures
            final(self).wf(),
            final(self).input == old(self).input,
            Some(value) == T::parse_spec(token_bytes(old(self).rest())),
            final(self).position == old(self).position + token_start(old(self).rest()) + token_bytes(
                old(self).rest(),
            ).len(),
    {
        let word = self.next_word();
        match T::parse(&word) {
            Some(value) => value,
            None => vstd::pervasive::unreached(),
        }
    }
}

/// Tells whether the byte is white space.
pub fn is_space_byte(c: u8) -> (b: bool)
    ensures
        b == is_space(c),
{
    c == 9 || c == 10 || c == 11 || c == 12 || c == 13 || c == 32
}

} // verus!
