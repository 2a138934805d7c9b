use cova::boolean::Boolean;
use cova::groups::Group;
use cova::modular::Gf7;
use cova::rings::{Field, Ring};

#[test]
fn boolean_addition_is_exclusive_or() {
    let a = Boolean(true);
    let b = Boolean(false);
    assert_eq!(a + a, Boolean(false));
    assert_eq!(a + b, Boolean(true));
    assert_eq!(b + a, Boolean(true));
    assert_eq!(b + b, Boolean(false));
}

#[test]
fn boolean_multiplication_is_conjunction() {
    let a = Boolean(true);
    let b = Boolean(false);
    assert_eq!(a * b, Boolean(false));
    assert_eq!(a * a, Boolean(true));
    assert_eq!(b * b, Boolean(false));
}

#[test]
fn boolean_subtraction_negation_and_division() {
    let a = Boolean(true);
    let b = Boolean(false);
    assert_eq!(a - a, Boolean(false));
    assert_eq!(b - a, Boolean(true));
    assert_eq!(-a, a);
    assert_eq!(-b, b);
    assert_eq!(a / a, Boolean(true));
    assert_eq!(b / a, Boolean(false));
}

#[test]
fn boolean_assigning_operators() {
    let mut x = Boolean(true);
    x += Boolean(true);
    assert_eq!(x, Boolean(false));
    x -= Boolean(true);
    assert_eq!(x, Boolean(true));
    x *= Boolean(true);
    assert_eq!(x, Boolean(true));
    x /= Boolean(true);
    assert_eq!(x, Boolean(true));
    x *= Boolean(false);
    assert_eq!(x, Boolean(false));
}

#[test]
fn boolean_conversions() {
    assert_eq!(Boolean::from(true), Boolean(true));
    assert_eq!(Boolean::from(false), Boolean(false));
    assert!(bool::from(Boolean(true)));
    assert!(!bool::from(Boolean(false)));
}

#[test]
fn boolean_group_and_field_capabilities() {
    assert_eq!(<Boolean as Group>::identity(), Boolean(false));
    assert_eq!(Boolean(false).inverse(), Boolean(false));
    assert_eq!(Boolean(true).inverse(), Boolean(true));
    assert_eq!(<Boolean as Ring>::zero(), Boolean(false));
    assert_eq!(<Boolean as Ring>::one(), Boolean(true));
    assert!(Ring::is_zero(&Boolean(false)));
    assert!(!Ring::is_zero(&Boolean(true)));
    assert_eq!(Boolean(true).multiplicative_inverse(), Boolean(true));
    assert_eq!(Ring::add(Boolean(true), Boolean(true)), Boolean(false));
    assert_eq!(Ring::mul(Boolean(true), Boolean(true)), Boolean(true));
    assert_eq!(Ring::sub(Boolean(false), Boolean(true)), Boolean(true));
    assert_eq!(Ring::neg(Boolean(true)), Boolean(true));
    assert_eq!(Field::div(Boolean(true), Boolean(true)), Boolean(true));
    assert!(Boolean(true).equals(Boolean(true)));
    assert!(!Boolean(true).equals(Boolean(false)));
}

#[test]
fn seven_element_field_arithmetic() {
    assert_eq!(Gf7::new(9), Gf7::Two);
    assert_eq!(Gf7::new(7), Gf7::Zero);
    assert_eq!(Gf7::Five.value(), 5);
    assert_eq!(Gf7::Five.add(Gf7::Four), Gf7::Two);
    assert_eq!(Gf7::Three.mul(Gf7::Five), Gf7::One);
    assert_eq!(Gf7::Two.neg(), Gf7::Five);
    assert_eq!(Gf7::Zero.neg(), Gf7::Zero);
    assert_eq!(Gf7::Two.sub(Gf7::Five), Gf7::Four);
    assert_eq!(Gf7::Six.div(Gf7::Three), Gf7::Two);
    assert_eq!(Gf7::Two.inverse(), Gf7::Five);
    assert_eq!(<Gf7 as Group>::identity(), Gf7::Zero);
    assert!(Gf7::Zero.is_zero());
    assert!(!Gf7::Six.is_zero());
}

#[test]
fn seven_element_field_inverses() {
    for n in 1..7u64 {
        let x = Gf7::new(n);
        assert_eq!(x.mul(x.multiplicative_inverse()), Gf7::One);
    }
}

#[test]
fn each_element_and_its_inverse_add_up_to_the_identity() {
    for x in [Boolean(false), Boolean(true)] {
        assert_eq!(Ring::add(x, x.inverse()), <Boolean as Group>::identity());
        assert_eq!(x.inverse(), Ring::neg(x));
        assert_eq!(x.inverse().inverse(), x);
    }
    assert_eq!(<Boolean as Group>::identity(), <Boolean as Ring>::zero());
    for n in 0..7 {
        let x = Gf7::new(n);
        assert!(Ring::add(x, x.inverse()).equals(<Gf7 as Group>::identity()));
        assert!(x.inverse().equals(Ring::neg(x)));
        assert!(x.inverse().inverse().equals(x));
    }
    assert!(<Gf7 as Group>::identity().equals(<Gf7 as Ring>::zero()));
    assert!(Gf7::new(3).inverse().equals(Gf7::new(4)));
}
