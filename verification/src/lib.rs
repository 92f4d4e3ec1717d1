//! Propositional logic in reverse-Polish notation: a token classifier, a
//! postfix expression builder, an evaluator, a truth-table driver, and a
//! transformation to Negation Normal Form, together with a few self-contained
//! bitwise integer routines.

pub mod ast;
pub mod bitops;
pub mod form;
pub mod nnf;
pub mod table;

use vstd::prelude::*;

verus! {

/// Relies on String::push: appends exactly the given character.
#[verifier::external_body]
pub(crate) fn push_char(s: &mut String, c: char)
    ensures
        final(s)@ == old(s)@.push(c),
{
    s.push(c);
}

} // verus!
