//! Predefined operators.
//!
//! The precedences follow those of JavaScript: a higher number binds
//! tighter, and only the exponent and the logical "not" group from the right.

use vstd::prelude::*;
use vstd::std_specs::convert::FromSpecImpl;
use crate::Operator;

verus! {

/// A boxed operator is the operator in the box. This lets one expression
/// hold operators of several types.
impl Operator for Box<dyn Operator> {
    open spec fn spec_precedence(&self) -> usize {
        (**self).spec_precedence()
    }

    open spec fn spec_is_left_associative(&self) -> bool {
        (**self).spec_is_left_associative()
    }

    fn precedence(&self) -> (p: usize) {
        (**self).precedence()
    }

    fn is_left_associative(&self) -> (left: bool) {
        (**self).is_left_associative()
    }
}

/// Common math operators.
#[derive(Debug, PartialEq, Eq, Clone, Copy, Hash)]
pub enum Math {
    /// The addition operator.
    Add,
    /// The subtraction operator.
    Sub,
    /// The multiplication operator.
    Mul,
    /// The division operator.
    Div,
    /// The exponent operator.
    Exponent,
}

/// Common compare operators.
#[derive(Debug, PartialEq, Eq, Clone, Copy, Hash)]
pub enum Compare {
    /// The less than operator.
    Lt,
    /// The less or equals operator.
    Le,
    /// The equal operator.
    Eq,
    /// The not equal operator.
    Ne,
    /// The greater or equals operator.
    Ge,
    /// The greater than operator.
    Gt,
}

/// Common logical operators.
#[derive(Debug, PartialEq, Eq, Clone, Copy, Hash)]
pub enum Logical {
    /// The exclusive or operator.
    Xor,
    /// The and operator.
    And,
    /// The or operator.
    Or,
    /// The unary not operator.
    Not,
}

/// All predefined operators.
#[derive(Debug, PartialEq, Eq, Clone, Copy, Hash)]
pub enum All {
    /// Math operators.
    Math(Math),
    /// Compare operators.
    Compare(Compare),
    /// Logical operators.
    Logical(Logical),
}

impl Operator for Math {
    open spec fn spec_precedence(&self) -> usize {
        match self {
            Math::Add | Math::Sub => 11,
            Math::Mul | Math::Div => 12,
            Math::Exponent => 13,
        }
    }

    open spec fn spec_is_left_associative(&self) -> bool {
        !(self is Exponent)
    }

    fn precedence(&self) -> (p: usize) {
        match self {
            Math::Add | Math::Sub => 11,
            Math::Mul | Math::Div => 12,
            Math::Exponent => 13,
        }
    }

    fn is_left_associative(&self) -> (left: bool) {
        match self {
            Math::Add | Math::Sub => true,
            Math::Mul | Math::Div => true,
            Math::Exponent => false,
        }
    }
}

impl Operator for Compare {
    open spec fn spec_precedence(&self) -> usize {
        match self {
            Compare::Lt | Compare::Le | Compare::Ge | Compare::Gt => 9,
            Compare::Eq | Compare::Ne => 8,
        }
    }

    open spec fn spec_is_left_associative(&self) -> bool {
        true
    }

    fn precedence(&self) -> (p: usize) {
        match self {
            Compare::Lt | Compare::Le | Compare::Ge | Compare::Gt => 9,
            Compare::Eq | Compare::Ne => 8,
        }
    }

    fn is_left_associative(&self) -> (left: bool) {
        match self {
            Compare::Lt | Compare::Le | Compare::Ge | Compare::Gt => true,
            Compare::Eq | Compare::Ne => true,
        }
    }
}

impl Operator for Logical {
    open spec fn spec_precedence(&self) -> usize {
        match self {
            Logical::Xor => 6,
            Logical::And => 4,
            Logical::Or => 3,
            Logical::Not => 14,
        }
    }

    open spec fn spec_is_left_associative(&self) -> bool {
        !(self is Not)
    }

    fn precedence(&self) -> (p: usize) {
        match self {
            Logical::Xor => 6,
            Logical::And => 4,
            Logical::Or => 3,
            Logical::Not => 14,
        }
    }

    fn is_left_associative(&self) -> (left: bool) {
        match self {
            Logical::Xor => true,
            Logical::And => true,
            Logical::Or => true,
            Logical::Not => false,
        }
    }
}

/// An operator of the union is the operator that it holds.
impl Operator for All {
    open spec fn spec_precedence(&self) -> usize {
        match self {
            All::Math(math) => math.spec_precedence(),
            All::Compare(compare) => compare.spec_precedence(),
            All::Logical(logical) => logical.spec_precedence(),
        }
    }

    open spec fn spec_is_left_associative(&self) -> bool {
        match self {
            All::Math(math) => math.spec_is_left_associative(),
            All::Compare(compare) => compare.spec_is_left_associative(),
            All::Logical(logical) => logical.spec_is_left_associative(),
        }
    }

    fn precedence(&self) -> (p: usize) {
        match self {
            All::Math(math) => math.precedence(),
            All::Compare(compare) => compare.precedence(),
            All::Logical(logical) => logical.precedence(),
        }
    }

    fn is_left_associative(&self) -> (left: bool) {
        match self {
            All::Math(math) => math.is_left_associative(),
            All::Compare(compare) => compare.is_left_associative(),
            All::Logical(logical) => logical.is_left_associative(),
        }
    }
}

impl From<Math> for All {
    fn from(value: Math) -> (all: All) {
        All::Math(value)
    }
}

impl FromSpecImpl<Math> for All {
    open spec fn obeys_from_spec() -> bool {
        true
    }

    open spec fn from_spec(value: Math) -> All {
        All::Math(value)
    }
}

impl From<Compare> for All {
    fn from(value: Compare) -> (all: All) {
        All::Compare(value)
    }
}

impl FromSpecImpl<Compare> for All {
    open spec fn obeys_from_spec() -> bool {
        true
    }

    open spec fn from_spec(value: Compare) -> All {
        All::Compare(value)
    }
}

impl From<Logical> for All {
    fn from(value: Logical) -> (all: All) {
        All::Logical(value)
    }
}

impl FromSpecImpl<Logical> for All {
    open spec fn obeys_from_spec() -> bool {
        true
    }

    open spec fn from_spec(value: Logical) -> All {
        All::Logical(value)
    }
}

} // verus!
