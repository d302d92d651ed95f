use triton_vm::field::{canonical, XWord, P};
use triton_vm::ram_table::RamTable;
use triton_vm::trace::{AlgebraicExecutionTrace, ProcessorRow};
use twenty_first::math::b_field_element::BFieldElement;
use twenty_first::math::x_field_element::XFieldElement;

fn add_words(a: u64, b: u64) -> u64 {
    XWord::lift(a).plus(XWord::lift(b)).c0
}

fn sub_words(a: u64, b: u64) -> u64 {
    XWord::lift(a).minus(XWord::lift(b)).c0
}

fn mul_words(a: u64, b: u64) -> u64 {
    XWord::lift(a).times(XWord::lift(b)).c0
}

/// The inverse of `a`, or zero, as the table stores it: in the row before
/// an address that lies `a` higher.
fn inverse_or_zero(a: u64) -> u64 {
    let access = |clk, ramp| ProcessorRow { clk, ramp, ramv: 0 };
    let aet = AlgebraicExecutionTrace {
        processor_matrix: vec![access(0, 0), access(1, a)],
        hash_matrix: vec![],
    };
    let mut table = RamTable::new(2);
    RamTable::fill_trace(&mut table, &aet).unwrap();
    table.rows[0].iord
}

fn outside(x: XWord) -> XFieldElement {
    XFieldElement::new([BFieldElement::new(x.c0), BFieldElement::new(x.c1), BFieldElement::new(x.c2)])
}

fn inside(x: XFieldElement) -> XWord {
    XWord { c0: x.coefficients[0].value(), c1: x.coefficients[1].value(), c2: x.coefficients[2].value() }
}

#[test]
fn the_prime_is_two_to_64_minus_two_to_32_plus_one() {
    assert_eq!(P, 18446744069414584321);
    assert_eq!(P, BFieldElement::P);
}

#[test]
fn canonical_reduces_once() {
    assert_eq!(canonical(0), 0);
    assert_eq!(canonical(P - 1), P - 1);
    assert_eq!(canonical(P), 0);
    assert_eq!(canonical(u64::MAX), u64::MAX - P);
}

#[test]
fn sums_wrap_around_the_prime() {
    assert_eq!(add_words(2, 3), 5);
    assert_eq!(add_words(P - 1, 5), 4);
    assert_eq!(add_words(P - 1, P - 1), P - 2);
    assert_eq!(add_words(0, 0), 0);
}

#[test]
fn differences_wrap_around_the_prime() {
    assert_eq!(sub_words(5, 3), 2);
    assert_eq!(sub_words(3, 5), P - 2);
    assert_eq!(sub_words(0, P - 1), 1);
    assert_eq!(sub_words(7, 7), 0);
}

#[test]
fn products_are_reduced() {
    assert_eq!(mul_words(6, 7), 42);
    assert_eq!(mul_words(P - 1, P - 1), 1);
    assert_eq!(mul_words(P - 1, 2), P - 2);
    assert_eq!(mul_words(1 << 32, 1 << 32), (1 << 32) - 1);
    assert_eq!(mul_words(0, 12345), 0);
}

#[test]
fn inverse_of_zero_is_zero() {
    assert_eq!(inverse_or_zero(0), 0);
}

#[test]
fn inverses_multiply_to_one() {
    assert_eq!(inverse_or_zero(1), 1);
    assert_eq!(inverse_or_zero(2), (P + 1) / 2);
    assert_eq!(inverse_or_zero(P - 1), P - 1);
    for a in [2, 3, 4, 1 << 40, P - 2] {
        assert_eq!(mul_words(a, inverse_or_zero(a)), 1);
    }
}

#[test]
fn extension_elements_are_reduced_on_construction() {
    assert_eq!(XWord::new(P, P + 1, 5), XWord { c0: 0, c1: 1, c2: 5 });
    assert_eq!(XWord::zero(), XWord { c0: 0, c1: 0, c2: 0 });
    assert_eq!(XWord::one(), XWord { c0: 1, c1: 0, c2: 0 });
    assert_eq!(XWord::lift(9), XWord { c0: 9, c1: 0, c2: 0 });
}

#[test]
fn extension_sums_and_differences_go_by_coefficient() {
    let a = XWord { c0: 1, c1: P - 1, c2: 3 };
    let b = XWord { c0: 2, c1: 5, c2: 4 };
    assert_eq!(a.plus(b), XWord { c0: 3, c1: 4, c2: 7 });
    assert_eq!(a.minus(b), XWord { c0: P - 1, c1: P - 6, c2: P - 1 });
    assert_eq!(b.minus(a), XWord { c0: 1, c1: 6, c2: 1 });
}

#[test]
fn the_cube_of_x_is_x_minus_one() {
    let x = XWord { c0: 0, c1: 1, c2: 0 };
    let x2 = x.times(x);
    assert_eq!(x2, XWord { c0: 0, c1: 0, c2: 1 });
    assert_eq!(x2.times(x), XWord { c0: P - 1, c1: 1, c2: 0 });
    assert_eq!(x2.times(x2), XWord { c0: 0, c1: P - 1, c2: 1 });
}

#[test]
fn extension_products_by_the_formula() {
    let a = XWord { c0: 2, c1: 3, c2: 5 };
    let b = XWord { c0: 7, c1: 11, c2: 13 };
    // c0 = 2*7 - 5*11 - 3*13, c1 = 3*7 + 2*11 - 5*13 + 5*11 + 3*13, c2 = 5*7 + 3*11 + 2*13 + 5*13
    assert_eq!(a.times(b), XWord { c0: P - 80, c1: 72, c2: 159 });
    assert_eq!(b.times(a), a.times(b));
    assert_eq!(a.times(XWord::one()), a);
    assert_eq!(a.times(XWord::zero()), XWord::zero());
}

#[test]
fn extension_arithmetic_agrees_with_the_field_library() {
    let samples = [
        XWord { c0: 0, c1: 0, c2: 0 },
        XWord { c0: 1, c1: 0, c2: 0 },
        XWord { c0: P - 1, c1: P - 2, c2: P - 3 },
        XWord { c0: 16360893149904808002, c1: 14209859389160351173, c2: 4432433203958274678 },
        XWord { c0: 11, c1: 13, c2: 108 },
    ];
    for a in samples {
        for b in samples {
            assert_eq!(a.plus(b), inside(outside(a) + outside(b)));
            assert_eq!(a.minus(b), inside(outside(a) - outside(b)));
            assert_eq!(a.times(b), inside(outside(a) * outside(b)));
        }
    }
}
