use triton_vm::bezout::{
    bezout_coefficients, bezout_coefficients_fit, check_bezout, derivative, multiply_by_linear, polynomial_with_roots,
    resize_coefficients, RamTableError,
};
use triton_vm::field::{XWord, P};
use twenty_first::math::b_field_element::BFieldElement;
use twenty_first::math::traits::Inverse;
use triton_vm::trace::{distinct_addresses, holds, ProcessorRow};

fn add_words(a: u64, b: u64) -> u64 {
    XWord::lift(a).plus(XWord::lift(b)).c0
}

fn sub_words(a: u64, b: u64) -> u64 {
    XWord::lift(a).minus(XWord::lift(b)).c0
}

fn mul_words(a: u64, b: u64) -> u64 {
    XWord::lift(a).times(XWord::lift(b)).c0
}

fn inverse_or_zero(a: u64) -> u64 {
    BFieldElement::new(a).inverse_or_zero().value()
}

/// The value of a polynomial at a point, by Horner's rule.
fn value_at(p: &[u64], x: u64) -> u64 {
    p.iter().rev().fold(0, |acc, &c| add_words(mul_words(acc, x), c))
}

#[test]
fn polynomial_of_one_root_has_degree_one() {
    assert_eq!(polynomial_with_roots(&vec![5]), vec![P - 5, 1]);
    assert_eq!(polynomial_with_roots(&vec![0]), vec![0, 1]);
}

#[test]
fn polynomial_of_no_root_is_one() {
    assert_eq!(polynomial_with_roots(&vec![]), vec![1]);
}

#[test]
fn polynomial_of_two_roots() {
    assert_eq!(polynomial_with_roots(&vec![5, 9]), vec![45, P - 14, 1]);
    assert_eq!(polynomial_with_roots(&vec![9, 5]), vec![45, P - 14, 1]);
}

#[test]
fn multiplying_by_a_linear_factor() {
    // (2 + 3x)(x - 4) = -8 - 10x + 3x^2
    assert_eq!(multiply_by_linear(&vec![2, 3], 4), vec![P - 8, P - 10, 3]);
    assert_eq!(multiply_by_linear(&vec![], 4), vec![0]);
}

#[test]
fn formal_derivative_of_a_polynomial() {
    assert_eq!(derivative(&vec![45, P - 14, 1]), vec![P - 14, 2]);
    assert_eq!(derivative(&vec![1, 2, 3, 4]), vec![2, 6, 12]);
    assert_eq!(derivative(&vec![7]), Vec::<u64>::new());
    assert_eq!(derivative(&vec![]), Vec::<u64>::new());
}

#[test]
fn coefficients_are_filled_up_or_cut_off() {
    assert_eq!(resize_coefficients(&vec![1, 2], 4), vec![1, 2, 0, 0]);
    assert_eq!(resize_coefficients(&vec![1, 2, 3], 2), vec![1, 2]);
    assert_eq!(resize_coefficients(&vec![], 1), vec![0]);
    assert_eq!(resize_coefficients(&vec![4], 0), Vec::<u64>::new());
}

#[test]
fn a_divisor_other_than_one_is_a_repeated_address() {
    assert_eq!(check_bezout(&vec![P - 5, 1], &vec![], &vec![1], 2), Err(RamTableError::RepeatedAddress));
    assert_eq!(check_bezout(&vec![2], &vec![], &vec![1], 2), Err(RamTableError::RepeatedAddress));
    assert_eq!(check_bezout(&vec![], &vec![], &vec![1], 2), Err(RamTableError::RepeatedAddress));
}

#[test]
fn a_long_first_coefficient_is_refused() {
    assert_eq!(
        check_bezout(&vec![1], &vec![1, 2, 3], &vec![1], 2),
        Err(RamTableError::BezoutCoefficient0Degree)
    );
}

#[test]
fn a_long_second_coefficient_is_refused() {
    assert_eq!(
        check_bezout(&vec![1], &vec![1, 2], &vec![1, 2, 3, 4], 2),
        Err(RamTableError::BezoutCoefficient1Degree)
    );
}

#[test]
fn checked_coefficients_have_one_entry_per_address() {
    assert_eq!(check_bezout(&vec![1], &vec![7], &vec![8, 9], 3), Ok((vec![7, 0, 0], vec![8, 9, 0])));
    assert_eq!(check_bezout(&vec![1], &vec![7, 6], &vec![8, 9, 5], 2), Ok((vec![7, 6], vec![8, 9])));
}

#[test]
fn bezout_coefficients_of_a_single_address() {
    assert_eq!(bezout_coefficients(&vec![42]), Ok((vec![0], vec![1])));
}

#[test]
fn bezout_coefficients_of_two_addresses() {
    let minus_quarter = sub_words(0, inverse_or_zero(4));
    let eighth = inverse_or_zero(8);
    let minus_seven_eighths = sub_words(0, mul_words(7, eighth));
    assert_eq!(
        bezout_coefficients(&vec![5, 9]),
        Ok((vec![minus_quarter, 0], vec![minus_seven_eighths, eighth]))
    );
}

#[test]
fn bezout_identity_holds_at_sample_points() {
    let addrs = vec![3, 1 << 33, 17, P - 1, 0];
    let p = polynomial_with_roots(&addrs);
    let d = derivative(&p);
    let (u, v) = bezout_coefficients(&addrs).unwrap();
    assert_eq!(u.len(), 5);
    assert_eq!(v.len(), 5);
    for x in [0, 1, 2, 12345, P - 7] {
        let lhs = add_words(
            mul_words(value_at(&u, x), value_at(&p, x)),
            mul_words(value_at(&v, x), value_at(&d, x)),
        );
        assert_eq!(lhs, 1);
    }
}

#[test]
fn a_repeated_root_is_detected() {
    assert_eq!(bezout_coefficients(&vec![5, 5]), Err(RamTableError::RepeatedAddress));
    assert_eq!(bezout_coefficients(&vec![1, 2, 1]), Err(RamTableError::RepeatedAddress));
}

#[test]
fn addresses_come_in_the_order_of_first_access() {
    let access = |clk, ramp| ProcessorRow { clk, ramp, ramv: 0 };
    let trace = vec![access(0, 7), access(1, 3), access(2, 7), access(3, 0), access(4, 3)];
    assert_eq!(distinct_addresses(&trace), vec![7, 3, 0]);
    assert_eq!(distinct_addresses(&vec![]), Vec::<u64>::new());
}

#[test]
fn membership_in_a_list_of_values() {
    assert!(holds(&vec![7, 3, 0], 3));
    assert!(!holds(&vec![7, 3, 0], 4));
    assert!(!holds(&vec![], 0));
}

#[test]
fn bezout_coefficients_of_distinct_addresses_fit() {
    assert!(bezout_coefficients_fit(&vec![42]));
    assert!(bezout_coefficients_fit(&vec![5, 9]));
    assert!(bezout_coefficients_fit(&vec![3, 1 << 33, 17, P - 1, 0]));
}

#[test]
fn bezout_coefficients_of_no_address_do_not_fit() {
    // The first coefficient of the constant one and zero is one: it has a term.
    assert!(!bezout_coefficients_fit(&vec![]));
}

#[test]
fn leading_entry_of_the_first_coefficient_is_zero_where_they_fit() {
    for addrs in [vec![42], vec![5, 9], vec![3, 1 << 33, 17, P - 1, 0]] {
        assert!(bezout_coefficients_fit(&addrs));
        let (first, _) = bezout_coefficients(&addrs).unwrap();
        assert_eq!(first[addrs.len() - 1], 0);
    }
}
