use sylo::charset::CharSet;
use sylo::regex::{literal, Operator, RegEx};

#[test]
fn derivative_of_a_literal_is_its_tail() {
    let ab = literal("ab");
    assert!(ab.deriv(b'a').equals(&literal("b")));
    assert!(ab.deriv(b'b').equals(&RegEx::none()));
    assert!(literal("b").deriv(b'b').equals(&RegEx::empty()));
}

#[test]
fn derivative_of_a_star_is_the_operand_derivative_then_the_star() {
    let a = RegEx::set(CharSet::point(b'a'));
    let s = a.concat(&RegEx::set(CharSet::point(b'b'))).star();
    let d = s.deriv(b'a');
    assert!(d.equals(&RegEx::set(CharSet::point(b'b')).concat(&s)));
}

#[test]
fn derivative_of_a_complement_complements_the_operand_derivative() {
    let ab = literal("ab");
    let n = ab.not();
    assert!(matches!(&*n.root, Operator::Not(_)));
    // the complement of the set {b}, within single bytes
    let d = n.deriv(b'a');
    assert!(d.equals(&RegEx::set(CharSet::point(b'b')).not()));
    assert!(!d.is_nullable());
}

#[test]
fn literal_trees() {
    assert!(literal("").equals(&RegEx::empty()));
    assert!(literal("a").equals(&RegEx::set(CharSet::point(b'a'))));
    let ab = RegEx::set(CharSet::point(b'a')).concat(&RegEx::set(CharSet::point(b'b')));
    assert!(literal("ab").equals(&ab));
}

#[test]
fn optional_plus_and_difference_trees() {
    let a = RegEx::set(CharSet::point(b'a'));
    assert!(a.opt().equals(&a.or(&RegEx::empty())));
    assert!(RegEx::none().opt().equals(&RegEx::empty()));
    assert!(a.plus().equals(&a.concat(&a.star())));
    assert!(RegEx::none().plus().equals(&RegEx::none()));
    assert!(RegEx::empty().plus().equals(&RegEx::empty()));
    let ab = literal("ab");
    assert!(ab.diff(&a).equals(&ab.and(&a.not())));
}

#[test]
fn concatenation_is_associative_on_trees() {
    let a = RegEx::set(CharSet::point(b'a'));
    let b = RegEx::set(CharSet::point(b'b')).star();
    let c = literal("cd");
    assert!(a.concat(&b).concat(&c).equals(&a.concat(&b.concat(&c))));
    let e = RegEx::empty();
    assert!(a.concat(&e).concat(&c).equals(&a.concat(&e.concat(&c))));
    assert!(a.concat(&e).equals(&a));
    assert!(RegEx::none().concat(&a).equals(&RegEx::none()));
}
