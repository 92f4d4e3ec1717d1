//! The mathematical model of a formula: an abstract syntax datatype together
//! with its semantics under an assignment of the variables.

use vstd::prelude::*;

verus! {

/// The binary connectives of the formula language.
#[derive(Clone, Copy, Debug, PartialEq, Eq, Structural)]
pub enum BinaryOperator {
    And,
    Or,
    Implies,
    Equivalent,
    Xor,
}

/// A formula, as a pure value: the specification-level picture of an
/// expression tree.
#[derive(Debug, PartialEq, Eq)]
pub enum Form {
    /// A boolean constant.
    Val(bool),
    /// A propositional variable, named by an uppercase ASCII letter.
    Var(char),
    /// Negation of a subformula.
    Not(Box<Form>),
    /// A binary connective applied to two subformulas.
    Bin(BinaryOperator, Box<Form>, Box<Form>),
}

/// The truth table of a single binary connective.
pub open spec fn eval_bin(op: BinaryOperator, l: bool, r: bool) -> bool {
    match op {
        BinaryOperator::And => l && r,
        BinaryOperator::Or => l || r,
        BinaryOperator::Implies => !l || r,
        BinaryOperator::Equivalent => l == r,
        BinaryOperator::Xor => l != r,
    }
}

/// The value of a formula under an assignment of the variables.
pub open spec fn evalf(f: Form, a: Map<char, bool>) -> bool
    decreases f,
{
    match f {
        Form::Val(b) => b,
        Form::Var(c) => a[c],
        Form::Not(x) => !evalf(*x, a),
        Form::Bin(op, l, r) => eval_bin(op, evalf(*l, a), evalf(*r, a)),
    }
}

/// Every variable of the formula is an uppercase ASCII letter, as the token
/// classifier demands; every parsed formula satisfies this.
pub open spec fn vars_upper(f: Form) -> bool
    decreases f,
{
    match f {
        Form::Val(_) => true,
        Form::Var(c) => 'A' <= c <= 'Z',
        Form::Not(x) => vars_upper(*x),
        Form::Bin(_, l, r) => vars_upper(*l) && vars_upper(*r),
    }
}

/// A formula is ground when it contains no variables.
pub open spec fn ground(f: Form) -> bool
    decreases f,
{
    match f {
        Form::Val(_) => true,
        Form::Var(_) => false,
        Form::Not(x) => ground(*x),
        Form::Bin(_, l, r) => ground(*l) && ground(*r),
    }
}

/// The value of a ground formula; for such a formula the assignment is
/// irrelevant, see `lemma_ground_eval_any`.
pub open spec fn evalc(f: Form) -> bool {
    evalf(f, Map::empty())
}

/// The value of a ground formula does not depend on the assignment.
pub proof fn lemma_ground_eval_any(f: Form, a: Map<char, bool>)
    requires
        ground(f),
    ensures
        evalf(f, a) == evalc(f),
    decreases f,
{
    match f {
        Form::Val(_) => {},
        Form::Var(_) => {},
        Form::Not(x) => {
            lemma_ground_eval_any(*x, a);
        },
        Form::Bin(_, l, r) => {
            lemma_ground_eval_any(*l, a);
            lemma_ground_eval_any(*r, a);
        },
    }
}

} // verus!
