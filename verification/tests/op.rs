use gyard::op::{All, Compare, Logical, Math};
use gyard::Operator;

#[test]
fn convert_op_type() {
    let mut _op: All = Math::Div.into();
    _op = Logical::Or.into();
    _ = _op;
}

#[test]
fn conversions_keep_the_operator() {
    assert_eq!(All::from(Math::Div), All::Math(Math::Div));
    assert_eq!(All::from(Compare::Ne), All::Compare(Compare::Ne));
    assert_eq!(All::from(Logical::Or), All::Logical(Logical::Or));
}

#[test]
fn math_precedences() {
    assert_eq!(Math::Add.precedence(), 11);
    assert_eq!(Math::Sub.precedence(), 11);
    assert_eq!(Math::Mul.precedence(), 12);
    assert_eq!(Math::Div.precedence(), 12);
    assert_eq!(Math::Exponent.precedence(), 13);
    assert!(Math::Add.is_left_associative());
    assert!(Math::Sub.is_left_associative());
    assert!(Math::Mul.is_left_associative());
    assert!(Math::Div.is_left_associative());
    assert!(!Math::Exponent.is_left_associative());
}

#[test]
fn compare_precedences() {
    for op in [Compare::Lt, Compare::Le, Compare::Ge, Compare::Gt] {
        assert_eq!(op.precedence(), 9);
        assert!(op.is_left_associative());
    }
    for op in [Compare::Eq, Compare::Ne] {
        assert_eq!(op.precedence(), 8);
        assert!(op.is_left_associative());
    }
}

#[test]
fn logical_precedences() {
    assert_eq!(Logical::Xor.precedence(), 6);
    assert_eq!(Logical::And.precedence(), 4);
    assert_eq!(Logical::Or.precedence(), 3);
    assert_eq!(Logical::Not.precedence(), 14);
    assert!(Logical::Xor.is_left_associative());
    assert!(Logical::And.is_left_associative());
    assert!(Logical::Or.is_left_associative());
    assert!(!Logical::Not.is_left_associative());
}

#[test]
fn all_forwards_to_the_operator_it_holds() {
    assert_eq!(All::Math(Math::Exponent).precedence(), 13);
    assert!(!All::Math(Math::Exponent).is_left_associative());
    assert_eq!(All::Compare(Compare::Eq).precedence(), 8);
    assert!(All::Compare(Compare::Eq).is_left_associative());
    assert_eq!(All::Logical(Logical::Not).precedence(), 14);
    assert!(!All::Logical(Logical::Not).is_left_associative());
}

#[test]
fn boxed_operator_forwards() {
    let boxed: Box<dyn Operator> = Box::new(Math::Exponent);
    assert_eq!(boxed.precedence(), 13);
    assert!(!boxed.is_left_associative());
    let boxed: Box<dyn Operator> = Box::new(Logical::And);
    assert_eq!(boxed.precedence(), 4);
    assert!(boxed.is_left_associative());
}
