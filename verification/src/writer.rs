//! Writing numbers and text into bytes that are sent out later.

use crate::reader::decimal;
use crate::reader::is_digit;
use vstd::prelude::*;

verus! {

/// The digits that write `n` in base ten, without leading zeros.
pub open spec fn digits_of(n: nat) -> Seq<u8>
    decreases n,
{
    if n < 10 {
        seq![(48 + n) as u8]
    } else {
        digits_of(n / 10).push((48 + n % 10) as u8)
    }
}

/// The digits of a number write that number.
pub proof fn lemma_digits_write_the_number(n: nat)
    ensures
        decimal(digits_of(n)) == n,
        digits_of(n).len() > 0,
        forall|i: int| 0 <= i < digits_of(n).len() ==> is_digit(#[trigger] digits_of(n)[i]),
        n > 0 ==> digits_of(n)[0] != 48,
    decreases n,
{
    if n < 10 {
        let d = seq![(48 + n) as u8];
        assert(d.drop_last() =~= Seq::<u8>::empty());
        assert(decimal(d.drop_last()) == 0);
    } else {
        lemma_digits_write_the_number(n / 10);
        let front = digits_of(n / 10);
        let all = front.push((48 + n % 10) as u8);
        assert(all.drop_last() =~= front);
        assert forall|i: int| 0 <= i < all.len() implies is_digit(#[trigger] all[i]) by {
            if i < front.len() {
                assert(all[i] == front[i]);
            }
        }
        assert(all[0] == front[0]);
    }
}

/// The text that stands for a whole number: its digits, after a minus sign
/// if it is negative.
pub open spec fn signed_text(n: int) -> Seq<u8> {
    if n < 0 {
        seq![45u8] + digits_of((-n) as nat)
    } else {
        digits_of(n as nat)
    }
}

/// Appends the digits of `n`.
pub fn push_decimal(out: &mut Vec<u8>, n: u64)
    ensures
        final(out)@ == old(out)@ + digits_of(n as nat),
    decreases n,
{
    if n >= 10 {
        push_decimal(out, n / 10);
    }
    out.push(48 + (n % 10) as u8);
    proof {
        if n >= 10 {
            assert(out@ =~= old(out)@ + digits_of(n as nat));
        } else {
            assert(out@ =~= old(out)@ + digits_of(n as nat));
        }
    }
}

/// Appends the text of the whole number `n`.
pub fn push_signed(out: &mut Vec<u8>, n: i64)
    ensures
        final(out)@ == old(out)@ + signed_text(n as int),
{
    if n < 0 {
        out.push(45);
        let size: u64 = (-(n as i128)) as u64;
        push_decimal(out, size);
        assert(out@ =~= old(out)@ + signed_text(n as int));
    } else {
        push_decimal(out, n as u64);
    }
}

/// A value that has a text.
pub trait Printable {
    /// The text of the value.
    spec fn text(&self) -> Seq<u8>;

    /// Appends the text of the value.
    fn render(&self, out: &mut Vec<u8>)
        ensures
            final(out)@ == old(out)@ + self.text(),
    ;
}

impl Printable for u64 {
    open spec fn text(&self) -> Seq<u8> {
        digits_of(*self as nat)
    }

    fn render(&self, out: &mut Vec<u8>) {
        push_decimal(out, *self);
    }
}

impl Printable for usize {
    open spec fn text(&self) -> Seq<u8> {
        digits_of(*self as nat)
    }

    fn render(&self, out: &mut Vec<u8>) {
        push_decimal(out, *self as u64);
    }
}

impl Printable for u32 {
    open spec fn text(&self) -> Seq<u8> {
        digits_of(*self as nat)
    }

    fn render(&self, out: &mut Vec<u8>) {
        push_decimal(out, *self as u64);
    }
}

impl Printable for i64 {
    open spec fn text(&self) -> Seq<u8> {
        signed_text(*self as int)
    }

    fn render(&self, out: &mut Vec<u8>) {
        push_signed(out, *self);
    }
}

impl Printable for i32 {
    open spec fn text(&self) -> Seq<u8> {
        signed_text(*self as int)
    }

    fn render(&self, out: &mut Vec<u8>) {
        push_signed(out, *self as i64);
    }
}

impl Printable for Vec<u8> {
    open spec fn text(&self) -> Seq<u8> {
        self@
    }

    fn render(&self, out: &mut Vec<u8>) {
        let size: usize = self.len();
        let mut i: usize = 0;
        while i < size
            invariant
                i <= size,
                size == self@.len(),
                out@ == old(out)@ + self@.take(i as int),
            decreases size - i,
        {
            out.push(self[i]);
            assert(out@ =~= old(out)@ + self@.take(i + 1));
            i += 1;
        }
        assert(self@.take(size as int) =~= self@);
    }
}

/// Bytes that wait to be sent out.
pub struct OutputWriter {
    pub buf: Vec<u8>,
}

impl OutputWriter {
    /// A writer that appends to the bytes it is given.
    pub fn from_writer(buf: Vec<u8>) -> (writer: Self)
        ensures
            writer.buf == buf,
    {
        OutputWriter { buf }
    }

    /// Appends the text of `t`.
    pub fn print<T: Printable>(&mut self, t: T)
        ensures
            final(self).buf@ == old(self).buf@ + t.text(),
    {
        t.render(&mut self.buf);
    }

    /// Appends the text of `t` and a blank.
    pub fn prints<T: Printable>(&mut self, t: T)
        ensures
            final(self).buf@ == old(self).buf@ + t.text() + seq![32u8],
    {
        t.render(&mut self.buf);
        self.buf.push(32);
        assert(self.buf@ =~= old(self).buf@ + t.text() + seq![32u8]);
    }

    /// Appends the text of `t` and a line feed.
    pub fn println<T: Printable>(&mut self, t: T)
        ensures
            final(self).buf@ == old(self).buf@ + t.text() + seq![10u8],
    {
        t.render(&mut self.buf);
        self.buf.push(10);
        assert(self.buf@ =~= old(self).buf@ + t.text() + seq![10u8]);
    }

    /// Appends the bytes and returns how many they are.
    pub fn write(&mut self, bytes: &[u8]) -> (written: usize)
        ensures
            final(self).buf@ == old(self).buf@ + bytes@,
            written == bytes@.len(),
    {
        let size: usize = bytes.len();
        let mut i: usize = 0;
        while i < size
            invariant
                i <= size,
                size == bytes@.len(),
                self.buf@ == old(self).buf@ + bytes@.take(i as int),
            decreases size - i,
        {
            self.buf.push(bytes[i]);
            assert(self.buf@ =~= old(self).buf@ + bytes@.take(i + 1));
            i += 1;
        }
        assert(bytes@.take(size as int) =~= bytes@);
        size
    }

    /// Hands out the bytes that wait, and waits for new ones.
    pub fn flush(&mut self) -> (sent: Vec<u8>)
        ensures
            sent == old(self).buf,
            final(self).buf@.len() == 0,
    {
        let mut sent: Vec<u8> = Vec::new();
        std::mem::swap(&mut sent, &mut self.buf);
        sent
    }
}

} // verus!
