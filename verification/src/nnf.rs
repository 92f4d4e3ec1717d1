//! Negation Normal Form: rewriting a formula into an equivalent one that uses
//! only AND, OR, and NOT applied directly to a constant or variable leaf.

use vstd::prelude::*;

use crate::ast::{
    build_all, build_onto, classify_all, classify_char, lemma_build_onto_empty,
    lemma_classify_all_append, parse_formula, push_unit, Error, Node, Operator, Unit, Value, AST,
};
use crate::form::{evalf, vars_upper, BinaryOperator, Form};
use crate::push_char;

verus! {

/// A constant or variable leaf.
pub open spec fn is_leaf(f: Form) -> bool {
    f is Val || f is Var
}

/// The normal form: NOT only directly above a leaf, and no connective other
/// than AND and OR anywhere.
pub open spec fn is_nnf(f: Form) -> bool
    decreases f,
{
    match f {
        Form::Val(_) => true,
        Form::Var(_) => true,
        Form::Not(x) => is_leaf(*x),
        Form::Bin(op, l, r) => (op == BinaryOperator::And || op == BinaryOperator::Or) && is_nnf(
            *l,
        ) && is_nnf(*r),
    }
}

/// The rewrite itself. `neg` records whether an odd number of negations is
/// pending above `f`; pushing NOT through a node flips it, and the usual
/// rules (De Morgan, double negation, and the expansions of IMPLIES,
/// EQUIVALENT and XOR into AND/OR/NOT) decide each case.
pub open spec fn nnf(f: Form, neg: bool) -> Form
    decreases f,
{
    match f {
        Form::Val(_) => if neg {
            Form::Not(Box::new(f))
        } else {
            f
        },
        Form::Var(_) => if neg {
            Form::Not(Box::new(f))
        } else {
            f
        },
        Form::Not(x) => nnf(*x, !neg),
        Form::Bin(op, l, r) => match op {
            BinaryOperator::And => if neg {
                Form::Bin(BinaryOperator::Or, Box::new(nnf(*l, true)), Box::new(nnf(*r, true)))
            } else {
                Form::Bin(BinaryOperator::And, Box::new(nnf(*l, false)), Box::new(nnf(*r, false)))
            },
            BinaryOperator::Or => if neg {
                Form::Bin(BinaryOperator::And, Box::new(nnf(*l, true)), Box::new(nnf(*r, true)))
            } else {
                Form::Bin(BinaryOperator::Or, Box::new(nnf(*l, false)), Box::new(nnf(*r, false)))
            },
            BinaryOperator::Implies => if neg {
                Form::Bin(BinaryOperator::And, Box::new(nnf(*l, false)), Box::new(nnf(*r, true)))
            } else {
                Form::Bin(BinaryOperator::Or, Box::new(nnf(*l, true)), Box::new(nnf(*r, false)))
            },
            BinaryOperator::Equivalent => if neg {
                Form::Bin(
                    BinaryOperator::And,
                    Box::new(
                        Form::Bin(
                            BinaryOperator::Or,
                            Box::new(nnf(*l, true)),
                            Box::new(nnf(*r, true)),
                        ),
                    ),
                    Box::new(
                        Form::Bin(
                            BinaryOperator::Or,
                            Box::new(nnf(*l, false)),
                            Box::new(nnf(*r, false)),
                        ),
                    ),
                )
            } else {
                Form::Bin(
                    BinaryOperator::Or,
                    Box::new(
                        Form::Bin(
                            BinaryOperator::And,
                            Box::new(nnf(*l, false)),
                            Box::new(nnf(*r, false)),
                        ),
                    ),
                    Box::new(
                        Form::Bin(
                            BinaryOperator::And,
                            Box::new(nnf(*l, true)),
                            Box::new(nnf(*r, true)),
                        ),
                    ),
                )
            },
            BinaryOperator::Xor => if neg {
                Form::Bin(
                    BinaryOperator::And,
                    Box::new(
                        Form::Bin(
                            BinaryOperator::Or,
                            Box::new(nnf(*l, true)),
                            Box::new(nnf(*r, false)),
                        ),
                    ),
                    Box::new(
                        Form::Bin(
                            BinaryOperator::Or,
                            Box::new(nnf(*l, false)),
                            Box::new(nnf(*r, true)),
                        ),
                    ),
                )
            } else {
                Form::Bin(
                    BinaryOperator::Or,
                    Box::new(
                        Form::Bin(
                            BinaryOperator::And,
                            Box::new(nnf(*l, false)),
                            Box::new(nnf(*r, true)),
                        ),
                    ),
                    Box::new(
                        Form::Bin(
                            BinaryOperator::And,
                            Box::new(nnf(*l, true)),
                            Box::new(nnf(*r, false)),
                        ),
                    ),
                )
            },
        },
    }
}

/// The rewrite, under a pending negation or not, negates the value exactly
/// when the negation is pending.
proof fn lemma_nnf_semantics(f: Form, neg: bool, a: Map<char, bool>)
    ensures
        evalf(nnf(f, neg), a) == (evalf(f, a) != neg),
    decreases f,
{
    reveal_with_fuel(nnf, 2);
    reveal_with_fuel(evalf, 4);
    match f {
        Form::Val(_) => {},
        Form::Var(_) => {},
        Form::Not(x) => {
            lemma_nnf_semantics(*x, !neg, a);
        },
        Form::Bin(_, l, r) => {
            lemma_nnf_semantics(*l, false, a);
            lemma_nnf_semantics(*l, true, a);
            lemma_nnf_semantics(*r, false, a);
            lemma_nnf_semantics(*r, true, a);
        },
    }
}

/// Semantic equivalence: the transformed formula has the same value as the
/// original under every assignment of the variables.
pub proof fn lemma_nnf_equivalent(f: Form, a: Map<char, bool>)
    ensures
        evalf(nnf(f, false), a) == evalf(f, a),
{
    lemma_nnf_semantics(f, false, a);
}

/// Structural property: the transformed formula is in normal form — no NOT
/// above an operator node, and no IMPLIES, EQUIVALENT or XOR left anywhere.
pub proof fn lemma_nnf_normal_form(f: Form, neg: bool)
    ensures
        is_nnf(nnf(f, neg)),
    decreases f,
{
    reveal_with_fuel(nnf, 2);
    reveal_with_fuel(is_nnf, 4);
    match f {
        Form::Val(_) => {},
        Form::Var(_) => {},
        Form::Not(x) => {
            lemma_nnf_normal_form(*x, !neg);
        },
        Form::Bin(_, l, r) => {
            lemma_nnf_normal_form(*l, false);
            lemma_nnf_normal_form(*l, true);
            lemma_nnf_normal_form(*r, false);
            lemma_nnf_normal_form(*r, true);
        },
    }
}

/// A formula already in normal form is left unchanged by the rewrite.
proof fn lemma_nnf_fixed_point(f: Form)
    requires
        is_nnf(f),
    ensures
        nnf(f, false) == f,
    decreases f,
{
    reveal_with_fuel(nnf, 3);
    reveal_with_fuel(is_nnf, 2);
    match f {
        Form::Val(_) => {},
        Form::Var(_) => {},
        Form::Not(_) => {},
        Form::Bin(_, l, r) => {
            lemma_nnf_fixed_point(*l);
            lemma_nnf_fixed_point(*r);
        },
    }
}

/// Idempotence: transforming twice gives a tree structurally identical to
/// transforming once.
pub proof fn lemma_nnf_idempotent(f: Form)
    ensures
        nnf(nnf(f, false), false) == nnf(f, false),
{
    lemma_nnf_normal_form(f, false);
    lemma_nnf_fixed_point(nnf(f, false));
}

/// Builds a NOT node above an operand tree.
fn mk_not(x: Node) -> (r: Node)
    requires
        x.wf(),
    ensures
        r.wf(),
        r.form() == Form::Not(Box::new(x.form())),
{
    let mut token = Node::new(Unit::Operator(Operator::Not));
    token.add_left(x);
    token
}

/// Builds a binary node above two operand trees.
fn mk_bin(op: BinaryOperator, l: Node, r: Node) -> (res: Node)
    requires
        l.wf(),
        r.wf(),
    ensures
        res.wf(),
        res.form() == Form::Bin(op, Box::new(l.form()), Box::new(r.form())),
{
    let mut token = Node::new(Unit::Operator(Operator::BinaryOperator(op)));
    token.add_left(l);
    token.add_right(r);
    token
}

/// The rewrite on trees: returns a new tree, leaving the input intact, whose
/// formula is the normal form of the input's formula under `neg` pending
/// negations.
pub fn nnf_node(node: &Node, neg: bool) -> (r: Node)
    requires
        node.wf(),
    ensures
        r.wf(),
        r.form() == nnf(node.form(), neg),
    decreases node,
{
    match node.unit {
        Unit::Value(_) | Unit::Variable(_) => {
            let leaf = Node::new(node.unit);
            if neg {
                mk_not(leaf)
            } else {
                leaf
            }
        },
        Unit::Operator(Operator::Not) => {
            let x = node.left.as_ref().unwrap();
            nnf_node(x, !neg)
        },
        Unit::Operator(Operator::BinaryOperator(op)) => {
            let l = node.left.as_ref().unwrap();
            let r = node.right.as_ref().unwrap();
            match op {
                BinaryOperator::And => {
                    if neg {
                        mk_bin(BinaryOperator::Or, nnf_node(l, true), nnf_node(r, true))
                    } else {
                        mk_bin(BinaryOperator::And, nnf_node(l, false), nnf_node(r, false))
                    }
                },
                BinaryOperator::Or => {
                    if neg {
                        mk_bin(BinaryOperator::And, nnf_node(l, true), nnf_node(r, true))
                    } else {
                        mk_bin(BinaryOperator::Or, nnf_node(l, false), nnf_node(r, false))
                    }
                },
                BinaryOperator::Implies => {
                    if neg {
                        mk_bin(BinaryOperator::And, nnf_node(l, false), nnf_node(r, true))
                    } else {
                        mk_bin(BinaryOperator::Or, nnf_node(l, true), nnf_node(r, false))
                    }
                },
                BinaryOperator::Equivalent => {
                    if neg {
                        mk_bin(
                            BinaryOperator::And,
                            mk_bin(BinaryOperator::Or, nnf_node(l, true), nnf_node(r, true)),
                            mk_bin(BinaryOperator::Or, nnf_node(l, false), nnf_node(r, false)),
                        )
                    } else {
                        mk_bin(
                            BinaryOperator::Or,
                            mk_bin(BinaryOperator::And, nnf_node(l, false), nnf_node(r, false)),
                            mk_bin(BinaryOperator::And, nnf_node(l, true), nnf_node(r, true)),
                        )
                    }
                },
                BinaryOperator::Xor => {
                    if neg {
                        mk_bin(
                            BinaryOperator::And,
                            mk_bin(BinaryOperator::Or, nnf_node(l, true), nnf_node(r, false)),
                            mk_bin(BinaryOperator::Or, nnf_node(l, false), nnf_node(r, true)),
                        )
                    } else {
                        mk_bin(
                            BinaryOperator::Or,
                            mk_bin(BinaryOperator::And, nnf_node(l, false), nnf_node(r, true)),
                            mk_bin(BinaryOperator::And, nnf_node(l, true), nnf_node(r, false)),
                        )
                    }
                },
            }
        },
    }
}

/// The character that renders a binary connective.
pub open spec fn bin_char(op: BinaryOperator) -> char {
    match op {
        BinaryOperator::And => '&',
        BinaryOperator::Or => '|',
        BinaryOperator::Implies => '>',
        BinaryOperator::Equivalent => '=',
        BinaryOperator::Xor => '^',
    }
}

/// The reverse-Polish rendering of a formula: operands first, operator last.
pub open spec fn postfix(f: Form) -> Seq<char>
    decreases f,
{
    match f {
        Form::Val(true) => seq!['1'],
        Form::Val(false) => seq!['0'],
        Form::Var(c) => seq![c],
        Form::Not(x) => postfix(*x) + seq!['!'],
        Form::Bin(op, l, r) => postfix(*l) + postfix(*r) + seq![bin_char(op)],
    }
}

/// Appends the reverse-Polish rendering of a tree to the output.
fn write_postfix(node: &Node, out: &mut String)
    requires
        node.wf(),
    ensures
        final(out)@ == old(out)@ + postfix(node.form()),
    decreases node,
{
    match node.unit {
        Unit::Value(Value::True) => {
            push_char(out, '1');
            proof {
                assert(out@ =~= old(out)@ + postfix(node.form()));
            }
        },
        Unit::Value(Value::False) => {
            push_char(out, '0');
            proof {
                assert(out@ =~= old(out)@ + postfix(node.form()));
            }
        },
        Unit::Variable(c) => {
            push_char(out, c);
            proof {
                assert(out@ =~= old(out)@ + postfix(node.form()));
            }
        },
        Unit::Operator(Operator::Not) => {
            let x = node.left.as_ref().unwrap();
            write_postfix(x, out);
            push_char(out, '!');
            proof {
                assert(out@ =~= old(out)@ + postfix(node.form()));
            }
        },
        Unit::Operator(Operator::BinaryOperator(op)) => {
            let l = node.left.as_ref().unwrap();
            let r = node.right.as_ref().unwrap();
            write_postfix(l, out);
            write_postfix(r, out);
            let c = match op {
                BinaryOperator::And => '&',
                BinaryOperator::Or => '|',
                BinaryOperator::Implies => '>',
                BinaryOperator::Equivalent => '=',
                BinaryOperator::Xor => '^',
            };
            push_char(out, c);
            proof {
                assert(out@ =~= old(out)@ + postfix(node.form()));
            }
        },
    }
}

/// The rendering of a formula classifies cleanly, and building it on top of
/// any working stack pushes exactly that formula.
proof fn lemma_postfix_builds(f: Form, stack: Seq<Form>)
    requires
        vars_upper(f),
    ensures
        classify_all(postfix(f)) is Ok,
        build_onto(stack, classify_all(postfix(f))->Ok_0) == Ok::<Seq<Form>, Error>(
            stack.push(f),
        ),
    decreases f,
{
    reveal_with_fuel(classify_all, 3);
    reveal_with_fuel(build_onto, 3);
    reveal_with_fuel(postfix, 2);
    match f {
        Form::Val(b) => {
            let c = if b {
                '1'
            } else {
                '0'
            };
            assert(postfix(f) =~= Seq::empty().push(c));
            assert(postfix(f).drop_last() =~= Seq::<char>::empty());
            let us = classify_all(postfix(f))->Ok_0;
            assert(us =~= Seq::empty().push(classify_char(c)->Ok_0));
            assert(us.drop_last() =~= Seq::<Unit>::empty());
        },
        Form::Var(c) => {
            assert(postfix(f) =~= Seq::empty().push(c));
            assert(postfix(f).drop_last() =~= Seq::<char>::empty());
            assert(classify_char(c) == Ok::<Unit, Error>(Unit::Variable(c)));
            let us = classify_all(postfix(f))->Ok_0;
            assert(us =~= Seq::empty().push(Unit::Variable(c)));
            assert(us.drop_last() =~= Seq::<Unit>::empty());
        },
        Form::Not(x) => {
            lemma_postfix_builds(*x, stack);
            let px = postfix(*x);
            let ux = classify_all(px)->Ok_0;
            let bang = seq!['!'];
            assert(bang.drop_last() =~= Seq::<char>::empty());
            lemma_classify_all_append(px, bang);
            assert(classify_all(bang) == Ok::<Seq<Unit>, Error>(
                Seq::empty().push(Unit::Operator(Operator::Not)),
            )) by {
                assert(classify_all(bang) == (match classify_all(bang.drop_last()) {
                    Err(e) => Err::<Seq<Unit>, Error>(e),
                    Ok(us) => match classify_char(bang.last()) {
                        Err(e) => Err(e),
                        Ok(u) => Ok(us.push(u)),
                    },
                }));
                assert(Seq::<Unit>::empty().push(Unit::Operator(Operator::Not))
                    =~= Seq::empty().push(Unit::Operator(Operator::Not)));
            }
            let us = classify_all(postfix(f))->Ok_0;
            assert(us =~= ux.push(Unit::Operator(Operator::Not)));
            assert(us.drop_last() =~= ux);
            let grown = stack.push(*x);
            assert(push_unit(grown, Unit::Operator(Operator::Not)) == Ok::<Seq<Form>, Error>(
                grown.drop_last().push(Form::Not(Box::new(grown.last()))),
            ));
            assert(grown.drop_last() =~= stack);
            assert(grown.drop_last().push(Form::Not(Box::new(grown.last()))) =~= stack.push(f));
        },
        Form::Bin(op, l, r) => {
            lemma_postfix_builds(*l, stack);
            lemma_postfix_builds(*r, stack.push(*l));
            let pl = postfix(*l);
            let pr = postfix(*r);
            let ul = classify_all(pl)->Ok_0;
            let ur = classify_all(pr)->Ok_0;
            let oc = seq![bin_char(op)];
            assert(oc.drop_last() =~= Seq::<char>::empty());
            assert(classify_char(bin_char(op)) == Ok::<Unit, Error>(
                Unit::Operator(Operator::BinaryOperator(op)),
            ));
            assert(classify_all(oc) == Ok::<Seq<Unit>, Error>(
                Seq::empty().push(Unit::Operator(Operator::BinaryOperator(op))),
            )) by {
                reveal_with_fuel(classify_all, 3);
                assert(oc.drop_last() =~= Seq::<char>::empty());
                assert(oc.last() == bin_char(op));
                assert(Seq::<Unit>::empty().push(Unit::Operator(Operator::BinaryOperator(op)))
                    =~= Seq::empty().push(Unit::Operator(Operator::BinaryOperator(op))));
            }
            lemma_classify_all_append(pl, pr);
            lemma_classify_all_append(pl + pr, oc);
            assert(postfix(f) =~= (pl + pr) + oc);
            let us = classify_all(postfix(f))->Ok_0;
            assert(us =~= (ul + ur).push(Unit::Operator(Operator::BinaryOperator(op))));
            assert(us.drop_last() =~= ul + ur);
            // run the left operand, then the right, then apply the operator
            lemma_build_onto_append(stack, ul, ur);
            let grown = stack.push(*l).push(*r);
            assert(push_unit(grown, Unit::Operator(Operator::BinaryOperator(op)))
                == Ok::<Seq<Form>, Error>(
                grown.drop_last().drop_last().push(
                    Form::Bin(
                        op,
                        Box::new(grown[grown.len() - 2]),
                        Box::new(grown.last()),
                    ),
                ),
            ));
            assert(grown.drop_last().drop_last() =~= stack);
            assert(grown[grown.len() - 2] == *l);
            assert(grown.drop_last().drop_last().push(
                Form::Bin(op, Box::new(grown[grown.len() - 2]), Box::new(grown.last())),
            ) =~= stack.push(f));
        },
    }
}

/// Running the builder over a concatenation of unit sequences runs them one
/// after the other.
proof fn lemma_build_onto_append(stack: Seq<Form>, us1: Seq<Unit>, us2: Seq<Unit>)
    ensures
        build_onto(stack, us1 + us2) == (match build_onto(stack, us1) {
            Err(e) => Err::<Seq<Form>, Error>(e),
            Ok(st) => build_onto(st, us2),
        }),
    decreases us2.len(),
{
    if us2.len() == 0 {
        assert(us1 + us2 =~= us1);
    } else {
        assert((us1 + us2).drop_last() =~= us1 + us2.drop_last());
        assert((us1 + us2).last() == us2.last());
        lemma_build_onto_append(stack, us1, us2.drop_last());
    }
}

/// Round trip of rendering and parsing: the reverse-Polish rendering of any
/// formula whose variables are uppercase letters parses back to exactly that
/// formula. In particular the string `negation_normal_form` emits parses to
/// the normal form it stands for.
pub proof fn lemma_parse_postfix_round_trip(f: Form)
    requires
        vars_upper(f),
    ensures
        parse_formula(postfix(f)) == Ok::<Form, Error>(f),
{
    lemma_postfix_builds(f, Seq::empty());
    let us = classify_all(postfix(f))->Ok_0;
    lemma_build_onto_empty(us);
    assert(build_all(us) == Ok::<Seq<Form>, Error>(Seq::empty().push(f)));
    assert(Seq::<Form>::empty().push(f)[0] == f);
}

/// Parses a reverse-Polish formula and returns the reverse-Polish rendering
/// of its Negation Normal Form: only variables, constants, `!`, `&` and `|`
/// remain, with `!` directly before the rendering's preceding leaf.
pub fn negation_normal_form(formula: &str) -> (r: Result<String, Error>)
    ensures
        (match (r, parse_formula(formula@)) {
            (Ok(s), Ok(f)) => s@ == postfix(nnf(f, false)),
            (Err(e1), Err(e2)) => e1 == e2,
            _ => false,
        }),
{
    let tree = match AST::try_from(formula) {
        Ok(t) => t,
        Err(e) => {
            return Err(e);
        },
    };
    let rewritten = nnf_node(tree.root_node(), false);
    let mut out = String::new();
    write_postfix(&rewritten, &mut out);
    proof {
        assert(out@ =~= postfix(rewritten.form()));
    }
    Ok(out)
}

} // verus!
