use graphs::rational::Rational;
use graphs::bigint::BigInteger;
use graphs::bigint::BigUInteger;
use graphs::graph::Graph;
use graphs::parts::decompose_connected_components;
use graphs::parts::index_in_groups;
use graphs::decomposition::Decomposition;
use graphs::vectors::reversed_copy;

fn unsigned(text: &str) -> BigUInteger {
    BigUInteger::from_str(text)
}

fn whole(text: &str) -> BigInteger {
    BigInteger::from_str(text)
}

fn shown(n: BigInteger) -> String {
    let sign = if n.sign { "" } else { "-" };
    format!("{}{}", sign, BigUInteger::from_BigInteger(n).to_string())
}

#[test]
fn limbs_are_groups_of_three_digits() {
    assert_eq!(unsigned("1234567").number, vec![1, 234, 567]);
    assert_eq!(unsigned("999").number, vec![999]);
    assert_eq!(unsigned("1000").number, vec![1, 0]);
    assert_eq!(unsigned("000").number, vec![0]);
    assert_eq!(unsigned("").number, Vec::<i32>::new());
    assert_eq!(unsigned("0012").number, vec![0, 12]);
}

#[test]
fn text_of_a_big_number() {
    assert_eq!(unsigned("1234567").to_string(), "1234567");
    assert_eq!(unsigned("1000000").to_string(), "1000000");
    assert_eq!(unsigned("000").to_string(), "0");
    assert_eq!(unsigned("0012").to_string(), "12");
    assert_eq!(BigUInteger { number: vec![0, 0, 7] }.to_string(), "7");
}

#[test]
fn big_sums_carry() {
    assert_eq!(unsigned("999").add(unsigned("1")).number, vec![1, 0]);
    assert_eq!(unsigned("999999").add(unsigned("999999")).number, vec![1, 999, 998]);
    assert_eq!(unsigned("5").add(unsigned("123456")).number, vec![123, 461]);
    assert_eq!(unsigned("0").add(unsigned("0")).number, vec![0]);
    assert_eq!(
        unsigned("99999999999999999999").add(unsigned("1")).to_string(),
        "100000000000000000000"
    );
}

#[test]
fn big_differences_borrow() {
    assert_eq!(unsigned("1000").sub(unsigned("999")).number, vec![1]);
    assert_eq!(unsigned("5007").sub(unsigned("5003")).number, vec![0, 4]);
    assert_eq!(unsigned("1000000").sub(unsigned("1")).number, vec![999, 999]);
    assert_eq!(unsigned("7").sub(unsigned("7")).number, vec![0]);
    assert_eq!(unsigned("1").sub(unsigned("1000")).number, vec![999]);
    assert_eq!(unsigned("3").sub(unsigned("5")).number, vec![998]);
}

#[test]
fn big_numbers_compare_by_length_then_limbs() {
    assert_eq!(unsigned("999").compare(&unsigned("1000")), -1);
    assert_eq!(unsigned("1000").compare(&unsigned("999")), 1);
    assert_eq!(unsigned("123456").compare(&unsigned("123457")), -1);
    assert_eq!(unsigned("124000").compare(&unsigned("123999")), 1);
    assert_eq!(unsigned("42").compare(&unsigned("42")), 0);
    assert_eq!(unsigned("0012").compare(&unsigned("999")), 1);
}

#[test]
fn signed_numbers_from_text() {
    let a = whole("-12");
    assert!(!a.sign);
    assert_eq!(a.number, vec![12]);
    let b = whole("+1234");
    assert!(b.sign);
    assert_eq!(b.number, vec![1, 234]);
    let c = whole("7");
    assert!(c.sign);
    assert_eq!(c.number, vec![7]);
}

#[test]
fn signed_sums_and_differences() {
    assert_eq!(shown(whole("-5").add(whole("3"))), "-2");
    assert_eq!(shown(whole("5").add(whole("-3"))), "2");
    assert_eq!(shown(whole("-5").add(whole("-3"))), "-8");
    assert_eq!(shown(whole("999").add(whole("1"))), "1000");
    assert_eq!(shown(whole("3").sub(whole("5"))), "-2");
    assert_eq!(shown(whole("5").sub(whole("3"))), "2");
    assert_eq!(shown(whole("-1000").sub(whole("-999"))), "-1");
    assert_eq!(shown(whole("-999").sub(whole("-1000"))), "1");
    assert_eq!(shown(whole("-3").sub(whole("5"))), "-8");
    assert_eq!(shown(whole("3").sub(whole("-5"))), "8");
    assert_eq!(shown(whole("1000000").sub(whole("1"))), "999999");
}

#[test]
fn signed_numbers_compare() {
    assert!(whole("12").eq(&whole("+12")));
    assert!(!whole("12").eq(&whole("-12")));
    assert!(!whole("12").eq(&whole("13")));
    assert_eq!(whole("-1").compare(&whole("1")), -1);
    assert_eq!(whole("1").compare(&whole("-1")), 1);
    assert_eq!(whole("5").compare(&whole("7")), -1);
    assert_eq!(whole("-5").compare(&whole("-7")), 1);
    assert_eq!(whole("-1000").compare(&whole("-999")), -1);
    assert_eq!(whole("77").compare(&whole("77")), 0);
}

#[test]
fn reversed_copy_turns_a_list_round() {
    assert_eq!(reversed_copy(&vec![1, 2, 3]), vec![3, 2, 1]);
    assert_eq!(reversed_copy(&Vec::<u8>::new()), Vec::<u8>::new());
}

#[test]
fn components_as_graphs_of_their_own() {
    let mut g = Graph::new(5);
    g.add_undirected_edge(3, 1);
    g.add_undirected_edge(0, 4);
    g.add_undirected_edge(4, 2);
    g.add_undirected_edge(2, 0);
    let (d, place, parts) = decompose_connected_components(&g);
    assert_eq!(d.component_list, vec![vec![0, 4, 2], vec![1, 3]]);
    assert_eq!(place, vec![0, 0, 2, 1, 1]);
    assert_eq!(parts.len(), 2);
    assert_eq!(parts[0].vertexes(), 3);
    assert_eq!(parts[0].edges(), 3);
    assert_eq!(parts[1].vertexes(), 2);
    assert_eq!(parts[1].edges(), 1);
    let ends: Vec<usize> = parts[0].edges[0].iter().map(|e| e.to).collect();
    assert_eq!(ends, vec![1, 2]);
    let ends: Vec<usize> = parts[1].edges[0].iter().map(|e| e.to).collect();
    assert_eq!(ends, vec![1]);
    assert_eq!(index_in_groups(&Decomposition::from_component_list(vec![vec![1, 0], vec![2]])), vec![1, 0, 0]);
}

#[test]
fn gcd_of_small_numbers() {
    assert_eq!(Rational::gcd(12, 18), 6);
    assert_eq!(Rational::gcd(18, 12), 6);
    assert_eq!(Rational::gcd(7, 0), 7);
    assert_eq!(Rational::gcd(0, 7), 7);
    assert_eq!(Rational::gcd(0, 0), 0);
    assert_eq!(Rational::gcd(17, 5), 1);
}

#[test]
fn fractions_are_kept_in_lowest_terms() {
    let a = Rational::new(6, 4);
    assert_eq!((a.x, a.y), (3, 2));
    let b = Rational::new(-6, 4);
    assert_eq!((b.x, b.y), (-3, 2));
    let c = Rational::new(6, -4);
    assert_eq!((c.x, c.y), (3, -2));
    let zero = Rational::new(0, 5);
    assert_eq!((zero.x, zero.y), (0, 1));
}

#[test]
fn fractions_add_subtract_multiply_and_divide() {
    let half = Rational::new(1, 2);
    let third = Rational::new(1, 3);
    let sum = half.add(third);
    assert_eq!((sum.x, sum.y), (5, 6));
    let difference = half.sub(third);
    assert_eq!((difference.x, difference.y), (1, 6));
    let product = half.mul(third);
    assert_eq!((product.x, product.y), (1, 6));
    let quotient = half.div(third);
    assert_eq!((quotient.x, quotient.y), (3, 2));
    assert!(quotient.eq(&Rational::new(9, 6)));
    assert!(!quotient.eq(&half));
}

#[test]
fn fractions_print_whole_numbers_without_a_stroke() {
    assert_eq!(Rational::new(3, 2).to_string(), "3/2");
    assert_eq!(Rational::new(-3, 6).to_string(), "-1/2");
    assert_eq!(Rational::new(8, 4).to_string(), "2");
    assert_eq!(Rational::new(0, 9).to_string(), "0");
    assert_eq!(Rational::new(5, -1).to_string(), "5/-1");
}

#[test]
fn signed_numbers_print_their_sign() {
    assert_eq!(BigInteger::from_str("-1234567").to_string(), "-1234567");
    assert_eq!(BigInteger::from_str("+42").to_string(), "42");
    assert_eq!(BigInteger::from_str("0").to_string(), "0");
    assert_eq!(BigInteger::from_str("-0007").to_string(), "-7");
}

#[test]
fn signed_results_have_their_limbs_and_signs() {
    let d = whole("5").sub(whole("7"));
    assert!(!d.sign);
    assert_eq!(d.number, vec![2]);
    let e = whole("1000").sub(whole("1"));
    assert!(e.sign);
    assert_eq!(e.number, vec![999]);
    let f = whole("-999").sub(whole("1"));
    assert!(!f.sign);
    assert_eq!(f.number, vec![1, 0]);
    let g = whole("999").add(whole("1"));
    assert!(g.sign);
    assert_eq!(g.number, vec![1, 0]);
    let h = whole("-1005").add(whole("1003"));
    assert!(!h.sign);
    assert_eq!(h.number, vec![0, 2]);
    let z = whole("7").add(whole("-7"));
    assert!(z.sign);
    assert_eq!(z.number, vec![0]);
    let y = whole("-7").sub(whole("-7"));
    assert!(!y.sign);
    assert_eq!(y.number, vec![0]);
    let x = whole("1000000").sub(whole("999999"));
    assert!(x.sign);
    assert_eq!(x.number, vec![0, 1]);
}
