use graphs::bits::floor_log2;
use graphs::bits::mobius_transform;
use graphs::bits::reverse_bitmask;
use graphs::bits::to_bin_vec;
use graphs::bits::to_bitmask;
use graphs::bits::BitSet;
use graphs::bits::BoolFunction;
use graphs::bits::ZhegalkinPolynomial;
use graphs::polynomial::Polynomial;
use graphs::reader::InputReader;
use graphs::ring::CRing;
use graphs::ring::Field;
use graphs::ring::PrimeResidue;
use graphs::ring::RingCore;
use graphs::scanner::parse_unsigned;
use graphs::scanner::Scanner;
use graphs::writer::push_decimal;
use graphs::writer::OutputWriter;

#[test]
fn reader_reads_numbers_and_words() {
    let mut input = InputReader::from_reader(b"  12 -7 abc\nline two\nlast".to_vec());
    assert!(input.has_more());
    let a: u64 = input.next();
    assert_eq!(a, 12);
    let b: i64 = input.next();
    assert_eq!(b, -7);
    let w: String = input.next();
    assert_eq!(w, "abc");
    assert_eq!(input.next_line(), "");
    assert_eq!(input.next_line(), "line two");
    assert_eq!(input.next_line(), "last");
    assert!(!input.has_more());
}

#[test]
fn reader_reads_narrow_numbers_and_characters() {
    let mut input = InputReader::from_reader(b"x=255, y=-40000; z 7".to_vec());
    let c: char = input.next();
    assert_eq!(c, 'x');
    let a: u8 = input.next();
    assert_eq!(a, 255);
    let b: i32 = input.next();
    assert_eq!(b, -40000);
    let d: char = input.next();
    assert_eq!(d, ';');
    let n: usize = input.next();
    assert_eq!(n, 7);
    assert_eq!(input.current_index, 20);
}

#[test]
fn reader_minus_counts_only_directly_before_the_digits() {
    let mut input = InputReader::from_reader(b"- 5 --6 a-b-7".to_vec());
    let a: i64 = input.next();
    assert_eq!(a, 5);
    let b: i64 = input.next();
    assert_eq!(b, -6);
    let c: i64 = input.next();
    assert_eq!(c, -7);
}

#[test]
fn reader_steps_byte_by_byte() {
    let mut input = InputReader::from_reader(b"a42".to_vec());
    assert_eq!(input.peek(), b'a');
    input.consume();
    assert!(input.peek_is_digit());
    assert_eq!(input.pop_digit(), 4);
    assert_eq!(input.pop_digit(), 2);
    assert!(!input.has_more());
}

#[test]
fn reader_consume_until_stops_at_the_first_match() {
    let mut input = InputReader::from_reader(b"..x.x".to_vec());
    input.consume_until(|c| c == b'x');
    assert_eq!(input.current_index, 2);
    input.consume_until(|c| c == b'x');
    assert_eq!(input.current_index, 2);
    let mut signed = InputReader::from_reader(b"ab-12".to_vec());
    assert_eq!(signed.consume_until_sign(), -1);
    assert_eq!(signed.current_index, 3);
}

#[test]
fn reader_set_buf_size_leaves_the_input_alone() {
    let mut input = InputReader::from_reader(b"ab 17".to_vec());
    assert_eq!(input.buf_size, 1 << 16);
    input.consume();
    input.consume();
    input.consume();
    input.set_buf_size(2);
    assert_eq!(input.buf_size, 2);
    assert_eq!(input.buf, b"ab 17".to_vec());
    assert_eq!(input.current_index, 3);
    assert!(input.has_more());
    let n: u64 = input.next();
    assert_eq!(n, 17);
    input.set_buf_size(1 << 20);
    assert_eq!(input.buf_size, 1 << 20);
    assert_eq!(input.current_index, 5);
    assert!(!input.has_more());
}

#[test]
fn scanner_splits_at_white_space() {
    let mut scanner = Scanner::new(b"  10 +20\t30\n".to_vec());
    let a: usize = scanner.token();
    assert_eq!(a, 10);
    let b: u64 = scanner.token();
    assert_eq!(b, 20);
    assert_eq!(scanner.next_word(), b"30".to_vec());
    assert_eq!(scanner.next_word(), Vec::<u8>::new());
    assert_eq!(scanner.position, 12);
}

#[test]
fn parse_unsigned_rejects_what_is_no_number() {
    assert_eq!(parse_unsigned(&b"0".to_vec()), Some(0));
    assert_eq!(parse_unsigned(&b"007".to_vec()), Some(7));
    assert_eq!(parse_unsigned(&b"+15".to_vec()), Some(15));
    assert_eq!(parse_unsigned(&b"12a".to_vec()), None);
    assert_eq!(parse_unsigned(&b"-3".to_vec()), None);
    assert_eq!(parse_unsigned(&b"+".to_vec()), None);
    assert_eq!(parse_unsigned(&b"".to_vec()), None);
    assert_eq!(parse_unsigned(&b"18446744073709551615".to_vec()), Some(u64::MAX));
    assert_eq!(parse_unsigned(&b"18446744073709551616".to_vec()), None);
}

#[test]
fn writer_collects_text() {
    let mut out = OutputWriter::from_writer(Vec::new());
    out.print(12u64);
    out.prints(-5i64);
    out.println(b"ab".to_vec());
    out.println(0usize);
    assert_eq!(out.write(b"xyz"), 3);
    assert_eq!(out.buf, b"12-5 ab\n0\nxyz".to_vec());
    let sent = out.flush();
    assert_eq!(sent, b"12-5 ab\n0\nxyz".to_vec());
    assert!(out.buf.is_empty());
}

#[test]
fn writer_writes_the_extremes() {
    let mut out = OutputWriter::from_writer(b">".to_vec());
    out.println(i64::MIN);
    out.println(u64::MAX);
    out.print(i32::MIN);
    assert_eq!(out.buf, b">-9223372036854775808\n18446744073709551615\n-2147483648".to_vec());
    let mut digits = Vec::new();
    push_decimal(&mut digits, 9070);
    assert_eq!(digits, b"9070".to_vec());
}

#[test]
fn what_the_writer_writes_the_reader_reads() {
    let mut out = OutputWriter::from_writer(Vec::new());
    out.prints(40961u64);
    out.println(-123456789i64);
    let mut input = InputReader::from_reader(out.flush());
    let a: u64 = input.next();
    let b: i64 = input.next();
    assert_eq!(a, 40961);
    assert_eq!(b, -123456789);
}

#[test]
fn residues_modulo_seven() {
    let ring = PrimeResidue::new(7);
    assert_eq!(ring.modulo(), 7);
    assert_eq!(ring.zero(), 0);
    assert_eq!(ring.one(), 1);
    assert_eq!(ring.add(5, 4), 2);
    assert_eq!(ring.negate(3), 4);
    assert_eq!(ring.negate(0), 7);
    assert_eq!(ring.multiply(3, 5), 1);
    assert_eq!(ring.subtract(2, 5), 4);
    assert_eq!(ring.power(3, 4), 4);
    assert_eq!(ring.power(3, 0), 1);
    assert_eq!(ring.factorial(0), 1);
    assert_eq!(ring.factorial(3), 3);
    assert_eq!(ring.inverse(3), 5);
    assert_eq!(ring.divide(1, 3), 5);
    for a in 1..7 {
        assert_eq!(ring.multiply(a, ring.inverse(a)), 1);
    }
}

#[test]
fn polynomials_over_residues() {
    let ring = PrimeResidue::new(7);
    let a: Polynomial<PrimeResidue> = Polynomial::new(vec![1, 2]);
    let b: Polynomial<PrimeResidue> = Polynomial::new(vec![3, 4, 5]);
    assert_eq!(a.degree(), 1);
    assert_eq!(b.at(2, &ring), 5);
    let sum = Polynomial::new(vec![1, 2]).add(Polynomial::new(vec![3, 4, 5]), &ring);
    assert_eq!(sum.coefficients, vec![4, 6, 5]);
    let product = a.multiply(b, &ring);
    assert_eq!(product.coefficients, vec![3, 3, 6, 3]);
    let negative: Polynomial<PrimeResidue> = Polynomial::new(vec![1, 2]).negate(&ring);
    assert_eq!(negative.coefficients, vec![6, 5]);
}

#[test]
fn truncate_cuts_trailing_zeros_only() {
    let ring = PrimeResidue::new(7);
    let p: Polynomial<PrimeResidue> = Polynomial::new_truncated(vec![1, 0, 2, 0, 0], &ring);
    assert_eq!(p.coefficients, vec![1, 0, 2]);
    let mut zero: Polynomial<PrimeResidue> = Polynomial::new(vec![0, 0]);
    zero.truncate(&ring);
    assert_eq!(zero.coefficients, vec![0, 0]);
    let mut whole: Polynomial<PrimeResidue> = Polynomial::new(vec![0, 3]);
    whole.truncate(&ring);
    assert_eq!(whole.coefficients, vec![0, 3]);
}

#[test]
fn bit_sets() {
    let mut set = BitSet::from(0b0101);
    assert!(set.get(0));
    assert!(!set.get(1));
    set.set_true(1);
    assert_eq!(set.mask, 0b0111);
    set.set_false(0);
    assert_eq!(set.mask, 0b0110);
    set.set_to(3, true);
    set.set_to(2, false);
    set.set_to(1, true);
    assert_eq!(set.mask, 0b1010);
}

#[test]
fn bit_masks() {
    assert_eq!(to_bin_vec(5, 4), vec![true, false, true, false]);
    assert_eq!(to_bin_vec(5, 0), Vec::<bool>::new());
    assert_eq!(reverse_bitmask(0b001, 3), 0b100);
    assert_eq!(reverse_bitmask(0b1011, 4), 0b1101);
    assert_eq!(reverse_bitmask(0b1111, 2), 0b11);
    assert_eq!(to_bitmask(&vec![true, false, true, true]), 0b1101);
    assert_eq!(to_bitmask(&Vec::new()), 0);
}

#[test]
fn binary_logarithm_rounds_down() {
    assert_eq!(floor_log2(0), 0);
    assert_eq!(floor_log2(1), 0);
    assert_eq!(floor_log2(2), 1);
    assert_eq!(floor_log2(8), 3);
    assert_eq!(floor_log2(9), 3);
    assert_eq!(floor_log2(usize::MAX), usize::BITS as usize - 1);
    assert_eq!(BoolFunction::new(vec![false; 8]).dims, 3);
    assert_eq!(ZhegalkinPolynomial::new(vec![true; 4]).dims, 2);
    assert!(BoolFunction::new(vec![false, true]).at(1));
}

#[test]
fn zhegalkin_polynomials_of_known_functions() {
    let and = BoolFunction::new(vec![false, false, false, true]);
    assert_eq!(mobius_transform(&and).data, vec![false, false, false, true]);
    let xor = BoolFunction::new(vec![false, true, true, false]);
    assert_eq!(mobius_transform(&xor).data, vec![false, true, true, false]);
    let one = BoolFunction::new(vec![true, true, true, true]);
    assert_eq!(mobius_transform(&one).data, vec![true, false, false, false]);
    let or = BoolFunction::new(vec![false, true, true, true]);
    let p = mobius_transform(&or);
    assert_eq!(p.data, vec![false, true, true, true]);
    assert_eq!(p.dims, 2);
}

#[test]
fn white_space_is_taken_off_the_end_of_a_line() {
    let mut line = b"  10 11 \t\r\n".to_vec();
    graphs::reader::trim_line_end(&mut line);
    assert_eq!(line, b"  10 11".to_vec());
    let mut plain = b"x".to_vec();
    graphs::reader::trim_line_end(&mut plain);
    assert_eq!(plain, b"x".to_vec());
    assert!(graphs::reader::is_blank_byte(b' '));
    assert!(graphs::reader::is_blank_byte(12));
    assert!(!graphs::reader::is_blank_byte(b'0'));
    assert!(!graphs::reader::is_blank_byte(11));
}
