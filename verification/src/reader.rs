//! Reading numbers and words from bytes that were read before.

use vstd::prelude::*;

verus! {

/// The byte is one of `0` to `9`.
pub open spec fn is_digit(c: u8) -> bool {
    48 <= c <= 57
}

/// The byte is a printable character other than the space.
pub open spec fn is_graphic(c: u8) -> bool {
    33 <= c <= 126
}

/// The test for a decimal digit.
pub open spec fn digit_test() -> spec_fn(u8) -> bool {
    |c: u8| is_digit(c)
}

/// The test for a byte that is no decimal digit.
pub open spec fn not_digit_test() -> spec_fn(u8) -> bool {
    |c: u8| !is_digit(c)
}

/// The test for a byte that is printed with ink.
pub open spec fn graphic_test() -> spec_fn(u8) -> bool {
    |c: u8| is_graphic(c)
}

/// The test for a byte that is printed without ink.
pub open spec fn not_graphic_test() -> spec_fn(u8) -> bool {
    |c: u8| !is_graphic(c)
}

/// The number of entries of `s` before the first one that `stop` holds of,
/// or the length of `s` where there is none.
pub open spec fn skip_len(s: Seq<u8>, stop: spec_fn(u8) -> bool) -> int
    decreases s.len(),
{
    if s.len() == 0 || stop(s[0]) {
        0
    } else {
        1 + skip_len(s.drop_first(), stop)
    }
}

/// The bytes skipped all fail the test, and the byte after them, if there
/// is one, passes it.
pub proof fn lemma_skip_len_bounds(s: Seq<u8>, stop: spec_fn(u8) -> bool)
    ensures
        0 <= skip_len(s, stop) <= s.len(),
        forall|j: int| 0 <= j < skip_len(s, stop) ==> !stop(#[trigger] s[j]),
        skip_len(s, stop) < s.len() ==> stop(s[skip_len(s, stop)]),
    decreases s.len(),
{
    if s.len() == 0 || stop(s[0]) {
    } else {
        let rest = s.drop_first();
        lemma_skip_len_bounds(rest, stop);
        assert forall|j: int| 0 <= j < skip_len(s, stop) implies !stop(#[trigger] s[j]) by {
            if j > 0 {
                assert(rest[j - 1] == s[j]);
            }
        }
        if skip_len(s, stop) < s.len() {
            assert(rest[skip_len(rest, stop)] == s[skip_len(s, stop)]);
        }
    }
}

/// The first `k` entries fail `stop`, and entry `k` meets it or is the end.
pub proof fn lemma_skip_len_is(s: Seq<u8>, stop: spec_fn(u8) -> bool, k: int)
    requires
        0 <= k <= s.len(),
        forall|j: int| 0 <= j < k ==> !stop(#[trigger] s[j]),
        k < s.len() ==> stop(s[k]),
    ensures
        skip_len(s, stop) == k,
    decreases k,
{
    if k > 0 {
        assert(!stop(s[0]));
        let rest = s.drop_first();
        assert forall|j: int| 0 <= j < k - 1 implies !stop(#[trigger] rest[j]) by {
            assert(rest[j] == s[j + 1]);
        }
        if k < s.len() {
            assert(rest[k - 1] == s[k]);
        }
        lemma_skip_len_is(rest, stop, k - 1);
    }
}

/// The number that a row of digits writes in base ten.
pub open spec fn decimal(digits: Seq<u8>) -> nat
    decreases digits.len(),
{
    if digits.len() == 0 {
        0
    } else {
        decimal(digits.drop_last()) * 10 + (digits.last() - 48) as nat
    }
}

/// Where the first digit of `rest` stands.
pub open spec fn number_start(rest: Seq<u8>) -> int {
    skip_len(rest, digit_test())
}

/// The digits of the first number in `rest`.
pub open spec fn number_digits(rest: Seq<u8>) -> Seq<u8> {
    let from = rest.skip(number_start(rest));
    from.take(skip_len(from, not_digit_test()))
}

/// The first number in `rest`, and the place behind it.
pub open spec fn first_number(rest: Seq<u8>) -> (nat, int) {
    (decimal(number_digits(rest)), number_start(rest) + number_digits(rest).len())
}

/// `rest` holds a digit.
pub open spec fn has_number(rest: Seq<u8>) -> bool {
    number_start(rest) < rest.len()
}

/// The sign of the first number in `rest`: `-1` where a minus sign stands
/// directly before its first digit.
pub open spec fn first_sign(rest: Seq<u8>) -> int {
    let p = number_start(rest);
    if p > 0 && rest[p - 1] == 45 {
        -1
    } else {
        1
    }
}

/// Bytes that were read, the place up to which they are used, and the
/// size of the pieces in which input is to be fetched.
pub struct InputReader {
    pub buf: Vec<u8>,
    pub current_index: usize,
    pub buf_size: usize,
}

impl InputReader {
    /// The bytes that are not used yet.
    pub open spec fn rest(&self) -> Seq<u8> {
        self.buf@.skip(self.current_index as int)
    }

    /// The place of reading is within the buffer or at its end.
    pub open spec fn wf(&self) -> bool {
        self.current_index <= self.buf@.len()
    }

    /// A reader of the bytes that were read.
    pub fn from_reader(bytes: Vec<u8>) -> (reader: Self)
        ensures
            reader.wf(),
            reader.buf == bytes,
            reader.current_index == 0,
            reader.buf_size == 65536,
    {
        InputReader { buf: bytes, current_index: 0, buf_size: 65536 }
    }

    /// Tells whether any byte is left.
    pub fn has_more(&self) -> (more: bool)
        requires
            self.wf(),
        ensures
            more == (self.rest().len() > 0),
    {
        self.current_index < self.buf.len()
    }

    /// Sets the size of the pieces in which input is to be fetched. What
    /// was read and the place of reading stay as they are.
    pub fn set_buf_size(&mut self, buf_size: usize)
        ensures
            final(self).buf_size == buf_size,
            final(self).buf == old(self).buf,
            final(self).current_index == old(self).current_index,
            final(self).rest() == old(self).rest(),
            final(self).wf() == old(self).wf(),
    {
        self.buf_size = buf_size;
    }

    /// The next byte.
    pub fn peek(&self) -> (c: u8)
        requires
            self.wf(),
            self.rest().len() > 0,
        ensures
            c == self.rest()[0],
    {
        self.buf[self.current_index]
    }

    /// Steps over the next byte.
    pub fn consume(&mut self)
        requires
            old(self).wf(),
            old(self).rest().len() > 0,
        ensures
            final(self).wf(),
            final(self).buf == old(self).buf,
            final(self).buf_size == old(self).buf_size,
            final(self).current_index == old(self).current_index + 1,
            final(self).rest() == old(self).rest().drop_first(),
    {
        assert(self.current_index < self.buf.len());
        self.current_index += 1;
        assert(self.rest() =~= old(self).rest().drop_first());
    }

    /// Steps over the next byte, a digit, and returns its value.
    pub fn pop_digit(&mut self) -> (d: u64)
        requires
            old(self).wf(),
            old(self).rest().len() > 0,
            is_digit(old(self).rest()[0]),
        ensures
            final(self).wf(),
            final(self).buf == old(self).buf,
            final(self).buf_size == old(self).buf_size,
            final(self).current_index == old(self).current_index + 1,
            d == old(self).rest()[0] - 48,
    {
        let c = self.peek();
        self.consume();
        (c - 48) as u64
    }

    /// Steps over bytes up to the first one that meets `test`.
    pub fn consume_until<F: Fn(u8) -> bool>(&mut self, test: F)
        requires
            old(self).wf(),
            forall|c: u8| call_requires(test, (c,)),
            exists|i: int|
                0 <= i < old(self).rest().len() && !call_ensures(test, (#[trigger] old(self).rest()[i],), false),
        ensures
            final(self).wf(),
            final(self).buf == old(self).buf,
            final(self).buf_size == old(self).buf_size,
            old(self).current_index <= final(self).current_index < final(self).buf@.len(),
            call_ensures(test, (final(self).rest()[0],), true),
            forall|j: int|
                old(self).current_index <= j < final(self).current_index ==> call_ensures(
                    test,
                    (#[trigger] final(self).buf@[j],),
                    false,
                ),
    {
        let ghost goal = old(self).current_index + choose|i: int|
            0 <= i < old(self).rest().len() && !call_ensures(test, (#[trigger] old(self).rest()[i],), false);
        loop
            invariant
                self.wf(),
                self.buf == old(self).buf,
                self.buf_size == old(self).buf_size,
                forall|c: u8| call_requires(test, (c,)),
                old(self).current_index <= self.current_index <= goal < self.buf@.len(),
                !call_ensures(test, (self.buf@[goal],), false),
                forall|j: int|
                    old(self).current_index <= j < self.current_index ==> call_ensures(
                        test,
                        (#[trigger] self.buf@[j],),
                        false,
                    ),
            decreases self.buf@.len() - self.current_index,
        {
            let c = self.peek();
            if test(c) {
                return ;
            }
            self.consume();
        }
    }

    /// Steps up to the first digit, and returns `-1` if a minus sign stands
    /// directly before it, else `1`.
    pub fn consume_until_sign(&mut self) -> (sign: i64)
        requires
            old(self).wf(),
            has_number(old(self).rest()),
        ensures
            final(self).wf(),
            final(self).buf == old(self).buf,
            final(self).buf_size == old(self).buf_size,
            final(self).current_index == old(self).current_index + number_start(old(self).rest()),
            sign == first_sign(old(self).rest()),
    {
        let ghost rest = self.rest();
        let ghost p = number_start(rest);
        proof {
            lemma_skip_len_bounds(rest, digit_test());
        }
        loop
            invariant
                self.wf(),
                self.buf == old(self).buf,
                self.buf_size == old(self).buf_size,
                rest == old(self).rest(),
                p == number_start(rest),
                0 <= p < rest.len(),
                is_digit(rest[p]),
                forall|j: int| 0 <= j < p ==> !is_digit(#[trigger] rest[j]),
                old(self).current_index <= self.current_index <= old(self).current_index + p,
                self.current_index == old(self).current_index || !is_digit(
                    rest[self.current_index - old(self).current_index],
                ),
            decreases self.buf@.len() - self.current_index,
        {
            let ghost at = self.current_index - old(self).current_index;
            let digit_or_minus = |c: u8| -> (b: bool)
                ensures
                    b == (is_digit(c) || c == 45),
                { (c >= 48 && c <= 57) || c == 45 };
            proof {
                assert(self.rest()[p - at] == rest[p]);
            }
            self.consume_until(digit_or_minus);
            proof {
                let now = self.current_index - old(self).current_index;
                assert(self.rest()[0] == rest[now]);
                assert forall|j: int| at <= j < now implies !is_digit(#[trigger] rest[j]) && rest[j] != 45 by {
                    assert(self.buf@[old(self).current_index + j] == rest[j]);
                }
                if now > p {
                    assert(self.buf@[old(self).current_index + p] == rest[p]);
                }
            }
            if self.peek() != 45 {
                proof {
                    let now = self.current_index - old(self).current_index;
                    if now > 0 {
                        assert(self.buf@[old(self).current_index + now - 1] == rest[now - 1]);
                        if now - 1 >= at {
                            assert(rest[now - 1] != 45);
                        }
                    }
                }
                return 1;
            }
            proof {
                let now = self.current_index - old(self).current_index;
                assert(rest[now] == 45);
                assert(now < p);
            }
            self.consume();
            proof {
                let now = self.current_index - old(self).current_index;
                assert(self.rest()[0] == rest[now]);
                assert(rest[now - 1] == 45);
            }
            if self.peek_is_digit() {
                return -1;
            }
        }
    }

    /// Tells whether the next byte is a digit.
    pub fn peek_is_digit(&self) -> (b: bool)
        requires
            self.wf(),
            self.rest().len() > 0,
        ensures
            b == is_digit(self.rest()[0]),
    {
        let c = self.peek();
        c >= 48 && c <= 57
    }
}

/// The bytes as characters.
pub open spec fn as_chars(bytes: Seq<u8>) -> Seq<char> {
    Seq::new(bytes.len(), |i: int| bytes[i] as char)
}

/// The test for the end of a line.
pub open spec fn newline_test() -> spec_fn(u8) -> bool {
    |c: u8| c == 10
}

/// Where the first word of `rest` starts.
pub open spec fn word_start(rest: Seq<u8>) -> int {
    skip_len(rest, graphic_test())
}

/// The bytes of the first word of `rest`.
pub open spec fn word_bytes(rest: Seq<u8>) -> Seq<u8> {
    let from = rest.skip(word_start(rest));
    from.take(skip_len(from, not_graphic_test()))
}

/// A row of digits writes at least what any of its beginnings writes.
pub proof fn lemma_decimal_mono(digits: Seq<u8>, i: int)
    requires
        0 <= i <= digits.len(),
        forall|j: int| 0 <= j < digits.len() ==> is_digit(#[trigger] digits[j]),
    ensures
        decimal(digits.take(i)) <= decimal(digits),
    decreases digits.len() - i,
{
    if i == digits.len() {
        assert(digits.take(i) =~= digits);
    } else {
        lemma_decimal_mono(digits, i + 1);
        assert(digits.take(i + 1).drop_last() =~= digits.take(i));
        assert(is_digit(digits[i]));
    }
}

/// Appends `c` to `text`.
///
/// Stands for `String::push`, which appends the given character to the end
/// of the string.
#[verifier::external_body]
pub(crate) fn string_push(text: &mut String, c: char)
    ensures
        final(text)@ == old(text)@.push(c),
{
    text.push(c);
}

/// A value that can be read from the bytes of an `InputReader`.
pub trait InputReadable: Sized {
    /// The bytes hold such a value.
    spec fn readable(rest: Seq<u8>) -> bool;

    /// Reading the bytes gives `value` and uses up `used` of them.
    spec fn reads(rest: Seq<u8>, value: Self, used: int) -> bool;

    fn from_input(input: &mut InputReader) -> (value: Self)
        requires
            old(input).wf(),
            Self::readable(old(input).rest()),
        ensures
            final(input).wf(),
            final(input).buf == old(input).buf,
            final(input).buf_size == old(input).buf_size,
            final(input).current_index >= old(input).current_index,
            Self::reads(old(input).rest(), value, final(input).current_index - old(input).current_index),
    ;
}

/// Reads the digits that start at the next byte.
fn read_digits(input: &mut InputReader) -> (num: u64)
    requires
        old(input).wf(),
        old(input).rest().len() > 0,
        is_digit(old(input).rest()[0]),
        first_number(old(input).rest()).0 <= u64::MAX,
    ensures
        final(input).wf(),
        final(input).buf == old(input).buf,
        final(input).buf_size == old(input).buf_size,
        num == first_number(old(input).rest()).0,
        final(input).current_index == old(input).current_index + first_number(old(input).rest()).1,
        first_number(old(input).rest()).1 >= 0,
{
    let ghost rest = input.rest();
    let ghost run = number_digits(rest);
    proof {
        lemma_skip_len_is(rest, digit_test(), 0);
        assert(rest.skip(0) =~= rest);
        lemma_skip_len_bounds(rest, not_digit_test());
        assert(run.take(0) =~= Seq::<u8>::empty());
    }
    let mut num: u64 = 0;
    let mut done = false;
    let ghost mut i: int = 0;
    while !done
        invariant
            input.wf(),
            input.buf == old(input).buf,
            input.buf_size == old(input).buf_size,
            rest == old(input).rest(),
            run == rest.take(skip_len(rest, not_digit_test())),
            0 <= skip_len(rest, not_digit_test()) <= rest.len(),
            0 <= i <= run.len() <= rest.len(),
            forall|j: int| 0 <= j < run.len() ==> is_digit(#[trigger] run[j]),
            run.len() < rest.len() ==> !is_digit(rest[run.len() as int]),
            input.current_index == old(input).current_index + i,
            num == decimal(run.take(i)),
            decimal(run) <= u64::MAX,
            done ==> i == run.len(),
            !done ==> i < rest.len(),
        decreases rest.len() - i + (if done { 0int } else { 1int }),
    {
        proof {
            assert(input.rest()[0] == rest[i]);
            if i < run.len() {
                assert(run[i] == rest[i]);
            }
        }
        if input.peek_is_digit() {
            proof {
                lemma_decimal_mono(run, i + 1);
                assert(run.take(i + 1).drop_last() =~= run.take(i));
            }
            let d = input.pop_digit();
            num = num * 10 + d;
            proof {
                i = i + 1;
            }
            if !input.has_more() {
                done = true;
            }
        } else {
            done = true;
        }
    }
    proof {
        assert(run.take(run.len() as int) =~= run);
    }
    num
}

/// Steps to the first digit and reads the digits from there on.
fn read_unsigned(input: &mut InputReader) -> (num: u64)
    requires
        old(input).wf(),
        has_number(old(input).rest()),
        first_number(old(input).rest()).0 <= u64::MAX,
    ensures
        final(input).wf(),
        final(input).buf == old(input).buf,
        final(input).buf_size == old(input).buf_size,
        num == first_number(old(input).rest()).0,
        final(input).current_index == old(input).current_index + first_number(old(input).rest()).1,
        first_number(old(input).rest()).1 >= 0,
{
    let ghost rest = input.rest();
    let ghost p = number_start(rest);
    let digit = |c: u8| -> (b: bool)
        ensures
            b == is_digit(c),
        { c >= 48 && c <= 57 };
    proof {
        lemma_skip_len_bounds(rest, digit_test());
        assert(is_digit(rest[p]));
    }
    input.consume_until(digit);
    proof {
        let now = input.current_index - old(input).current_index;
        assert(input.rest()[0] == rest[now]);
        assert forall|j: int| 0 <= j < now implies !is_digit(#[trigger] rest[j]) by {
            assert(input.buf@[old(input).current_index + j] == rest[j]);
        }
        lemma_skip_len_is(rest, digit_test(), now);
        lemma_number_from_start(rest);
        assert(input.rest() =~= rest.skip(p));
    }
    read_digits(input)
}

/// The first number of what is left at its first digit is the first number
/// of the whole.
pub proof fn lemma_number_from_start(rest: Seq<u8>)
    requires
        has_number(rest),
    ensures
        first_number(rest.skip(number_start(rest))).0 == first_number(rest).0,
        first_number(rest.skip(number_start(rest))).1 + number_start(rest) == first_number(rest).1,
{
    let p = number_start(rest);
    let from = rest.skip(p);
    lemma_skip_len_bounds(rest, digit_test());
    assert(from[0] == rest[p]);
    lemma_skip_len_is(from, digit_test(), 0);
    assert(from.skip(0) =~= from);
}

impl InputReadable for u64 {
    open spec fn readable(rest: Seq<u8>) -> bool {
        has_number(rest) && first_number(rest).0 <= u64::MAX
    }

    open spec fn reads(rest: Seq<u8>, value: Self, used: int) -> bool {
        value == first_number(rest).0 && used == first_number(rest).1
    }

    fn from_input(input: &mut InputReader) -> (value: Self) {
        read_unsigned(input)
    }
}

impl InputReadable for usize {
    open spec fn readable(rest: Seq<u8>) -> bool {
        has_number(rest) && first_number(rest).0 <= usize::MAX
    }

    open spec fn reads(rest: Seq<u8>, value: Self, used: int) -> bool {
        value == first_number(rest).0 && used == first_number(rest).1
    }

    fn from_input(input: &mut InputReader) -> (value: Self) {
        let number = read_unsigned(input);
        assert(number <= usize::MAX);
        number as usize
    }
}

impl InputReadable for u32 {
    open spec fn readable(rest: Seq<u8>) -> bool {
        has_number(rest) && first_number(rest).0 <= u32::MAX
    }

    open spec fn reads(rest: Seq<u8>, value: Self, used: int) -> bool {
        value == first_number(rest).0 && used == first_number(rest).1
    }

    fn from_input(input: &mut InputReader) -> (value: Self) {
        let number = read_unsigned(input);
        assert(number <= u32::MAX);
        number as u32
    }
}

impl InputReadable for u16 {
    open spec fn readable(rest: Seq<u8>) -> bool {
        has_number(rest) && first_number(rest).0 <= u16::MAX
    }

    open spec fn reads(rest: Seq<u8>, value: Self, used: int) -> bool {
        value == first_number(rest).0 && used == first_number(rest).1
    }

    fn from_input(input: &mut InputReader) -> (value: Self) {
        let number = read_unsigned(input);
        assert(number <= u16::MAX);
        number as u16
    }
}

impl InputReadable for u8 {
    open spec fn readable(rest: Seq<u8>) -> bool {
        has_number(rest) && first_number(rest).0 <= u8::MAX
    }

    open spec fn reads(rest: Seq<u8>, value: Self, used: int) -> bool {
        value == first_number(rest).0 && used == first_number(rest).1
    }

    fn from_input(input: &mut InputReader) -> (value: Self) {
        let number = read_unsigned(input);
        assert(number <= u8::MAX);
        number as u8
    }
}

/// Steps to the first digit, noting a minus sign directly before it, and
/// reads the digits from there on.
fn read_signed(input: &mut InputReader) -> (num: i64)
    requires
        old(input).wf(),
        has_number(old(input).rest()),
        first_number(old(input).rest()).0 <= i64::MAX,
    ensures
        final(input).wf(),
        final(input).buf == old(input).buf,
        final(input).buf_size == old(input).buf_size,
        num == first_sign(old(input).rest()) * first_number(old(input).rest()).0,
        -first_number(old(input).rest()).0 <= num <= first_number(old(input).rest()).0,
        final(input).current_index == old(input).current_index + first_number(old(input).rest()).1,
        first_number(old(input).rest()).1 >= 0,
{
    let ghost rest = input.rest();
    let sign = input.consume_until_sign();
    proof {
        lemma_number_from_start(rest);
        lemma_skip_len_bounds(rest, digit_test());
        assert(input.rest() =~= rest.skip(number_start(rest)));
        assert(input.rest()[0] == rest[number_start(rest)]);
    }
    let size = read_digits(input);
    if sign == 1 {
        size as i64
    } else {
        -(size as i64)
    }
}

impl InputReadable for i64 {
    open spec fn readable(rest: Seq<u8>) -> bool {
        has_number(rest) && first_number(rest).0 <= i64::MAX
    }

    open spec fn reads(rest: Seq<u8>, value: Self, used: int) -> bool {
        value == first_sign(rest) * first_number(rest).0 && used == first_number(rest).1
    }

    fn from_input(input: &mut InputReader) -> (value: Self) {
        read_signed(input)
    }
}

impl InputReadable for i32 {
    open spec fn readable(rest: Seq<u8>) -> bool {
        has_number(rest) && first_number(rest).0 <= i32::MAX
    }

    open spec fn reads(rest: Seq<u8>, value: Self, used: int) -> bool {
        value == first_sign(rest) * first_number(rest).0 && used == first_number(rest).1
    }

    fn from_input(input: &mut InputReader) -> (value: Self) {
        let number = read_signed(input);
        assert(-i32::MAX <= number <= i32::MAX);
        number as i32
    }
}

impl InputReadable for isize {
    open spec fn readable(rest: Seq<u8>) -> bool {
        has_number(rest) && first_number(rest).0 <= i32::MAX
    }

    open spec fn reads(rest: Seq<u8>, value: Self, used: int) -> bool {
        value == first_sign(rest) * first_number(rest).0 && used == first_number(rest).1
    }

    fn from_input(input: &mut InputReader) -> (value: Self) {
        let number = read_signed(input);
        assert(-i32::MAX <= number <= i32::MAX);
        number as isize
    }
}

impl InputReadable for char {
    open spec fn readable(rest: Seq<u8>) -> bool {
        word_start(rest) < rest.len()
    }

    open spec fn reads(rest: Seq<u8>, value: Self, used: int) -> bool {
        value == rest[word_start(rest)] as char && used == word_start(rest) + 1
    }

    fn from_input(input: &mut InputReader) -> (value: Self) {
        let ghost rest = input.rest();
        let graphic = |c: u8| -> (b: bool)
            ensures
                b == is_graphic(c),
            { c >= 33 && c <= 126 };
        proof {
            lemma_skip_len_bounds(rest, graphic_test());
            assert(is_graphic(rest[word_start(rest)]));
        }
        input.consume_until(graphic);
        proof {
            let now = input.current_index - old(input).current_index;
            assert(input.rest()[0] == rest[now]);
            assert forall|j: int| 0 <= j < now implies !is_graphic(#[trigger] rest[j]) by {
                assert(input.buf@[old(input).current_index + j] == rest[j]);
            }
            lemma_skip_len_is(rest, graphic_test(), now);
        }
        let c = input.peek();
        input.consume();
        c as char
    }
}

impl InputReadable for String {
    open spec fn readable(rest: Seq<u8>) -> bool {
        word_start(rest) < rest.len()
    }

    open spec fn reads(rest: Seq<u8>, value: Self, used: int) -> bool {
        value@ == as_chars(word_bytes(rest)) && used == word_start(rest) + word_bytes(rest).len()
    }

    fn from_input(input: &mut InputReader) -> (value: Self) {
        let ghost rest = input.rest();
        let graphic = |c: u8| -> (b: bool)
            ensures
                b == is_graphic(c),
            { c >= 33 && c <= 126 };
        proof {
            lemma_skip_len_bounds(rest, graphic_test());
            assert(is_graphic(rest[word_start(rest)]));
        }
        input.consume_until(graphic);
        let ghost start = input.current_index - old(input).current_index;
        let ghost from = input.rest();
        let ghost run = word_bytes(rest);
        proof {
            assert(input.rest()[0] == rest[start]);
            assert forall|j: int| 0 <= j < start implies !is_graphic(#[trigger] rest[j]) by {
                assert(input.buf@[old(input).current_index + j] == rest[j]);
            }
            lemma_skip_len_is(rest, graphic_test(), start);
            assert(from =~= rest.skip(start));
            lemma_skip_len_bounds(from, not_graphic_test());
            assert(as_chars(run.take(0)) =~= Seq::<char>::empty());
        }
        let mut word = String::new();
        let mut done = false;
        let ghost mut i: int = 0;
        while !done
            invariant
                input.wf(),
                input.buf == old(input).buf,
                input.buf_size == old(input).buf_size,
                from == rest.skip(start),
                start == word_start(rest),
                0 <= start < rest.len(),
                run == from.take(skip_len(from, not_graphic_test())),
                0 <= skip_len(from, not_graphic_test()) <= from.len(),
                0 <= i <= run.len() <= from.len(),
                forall|j: int| 0 <= j < run.len() ==> is_graphic(#[trigger] from[j]),
                run.len() < from.len() ==> !is_graphic(from[run.len() as int]),
                input.current_index == old(input).current_index + start + i,
                from.len() == rest.len() - start,
                rest == old(input).rest(),
                word@ == as_chars(run.take(i)),
                done ==> i == run.len(),
                !done ==> i < from.len(),
            decreases from.len() - i + (if done { 0int } else { 1int }),
        {
            proof {
                assert(input.rest()[0] == from[i]);
            }
            let c = input.peek();
            if c >= 33 && c <= 126 {
                string_push(&mut word, c as char);
                input.consume();
                proof {
                    assert(run[i] == from[i]);
                    assert(as_chars(run.take(i + 1)) =~= as_chars(run.take(i)).push(c as char));
                    i = i + 1;
                }
                if !input.has_more() {
                    done = true;
                }
            } else {
                done = true;
            }
        }
        proof {
            assert(run.take(run.len() as int) =~= run);
        }
        word
    }
}

impl InputReader {
    /// Reads the next value of type `T`.
    pub fn next<T: InputReadable>(&mut self) -> (value: T)
        requires
            old(self).wf(),
            T::readable(old(self).rest()),
        ensures
            final(self).wf(),
            final(self).buf == old(self).buf,
            final(self).buf_size == old(self).buf_size,
            final(self).current_index >= old(self).current_index,
            T::reads(old(self).rest(), value, final(self).current_index - old(self).current_index),
    {
        T::from_input(self)
    }

    /// Reads up to the end of the line, and steps over the line feed that
    /// ends it.
    pub fn next_line(&mut self) -> (line: String)
        requires
            old(self).wf(),
            old(self).rest().len() > 0,
        ensures
            final(self).wf(),
            final(self).buf == old(self).buf,
            final(self).buf_size == old(self).buf_size,
            line@ == as_chars(old(self).rest().take(skip_len(old(self).rest(), newline_test()))),
            final(self).current_index == old(self).current_index + if skip_len(
                old(self).rest(),
                newline_test(),
            ) < old(self).rest().len() {
                skip_len(old(self).rest(), newline_test()) + 1
            } else {
                old(self).rest().len() as int
            },
    {
        let ghost rest = self.rest();
        let ghost k = skip_len(rest, newline_test());
        proof {
            lemma_skip_len_bounds(rest, newline_test());
            assert(as_chars(rest.take(0)) =~= Seq::<char>::empty());
        }
        let mut line = String::new();
        let mut done = false;
        let ghost mut i: int = 0;
        while !done
            invariant
                self.wf(),
                self.buf == old(self).buf,
                self.buf_size == old(self).buf_size,
                rest == old(self).rest(),
                k == skip_len(rest, newline_test()),
                0 <= i <= k <= rest.len(),
                forall|j: int| 0 <= j < k ==> #[trigger] rest[j] != 10,
                k < rest.len() ==> rest[k] == 10,
                self.current_index == old(self).current_index + i,
                line@ == as_chars(rest.take(i)),
                done ==> i == k,
                !done ==> i < rest.len(),
            decreases rest.len() - i + (if done { 0int } else { 1int }),
        {
            proof {
                assert(self.rest()[0] == rest[i]);
            }
            let c = self.peek();
            if c != 10 {
                string_push(&mut line, c as char);
                self.consume();
                proof {
                    assert(as_chars(rest.take(i + 1)) =~= as_chars(rest.take(i)).push(c as char));
                    i = i + 1;
                }
                if !self.has_more() {
                    done = true;
                }
            } else {
                done = true;
            }
        }
        if self.has_more() {
            self.consume();
        }
        line
    }
}

/// The byte is white space: a blank, a tabulator, a line feed, a form feed
/// or a carriage return.
pub open spec fn is_blank(b: u8) -> bool {
    b == 32 || b == 9 || b == 10 || b == 12 || b == 13
}

/// The length of the text without the white space at its end.
pub open spec fn text_end(s: Seq<u8>) -> int
    decreases s.len(),
{
    if s.len() == 0 {
        0
    } else if is_blank(s.last()) {
        text_end(s.drop_last())
    } else {
        s.len() as int
    }
}

/// Takes the white space off the end of a line that holds more than white
/// space.
pub fn trim_line_end(line: &mut Vec<u8>)
    requires
        text_end(old(line)@) > 0,
    ensures
        final(line)@ == old(line)@.take(text_end(old(line)@)),
{
    proof {
        assert(line@.take(line@.len() as int) =~= line@);
    }
    while line.len() > 0 && is_blank_byte(line[line.len() - 1])
        invariant
            line@ == old(line)@.take(line@.len() as int),
            line@.len() <= old(line)@.len(),
            text_end(line@) == text_end(old(line)@),
            text_end(old(line)@) > 0,
        decreases line@.len(),
    {
        line.pop();
        proof {
            assert(line@ =~= old(line)@.take(line@.len() as int));
        }
    }
}

/// Tells whether the byte is white space.
pub fn is_blank_byte(b: u8) -> (blank: bool)
    ensures
        blank == is_blank(b),
{
    b == 32 || b == 9 || b == 10 || b == 12 || b == 13
}

} // verus!
