//! Tokenization of a reverse-Polish formula string, construction of the
//! expression tree with arity checking, and evaluation of ground trees.

use vstd::prelude::*;
use vstd::string::StrSliceExecFns;

use crate::form::{evalc, evalf, ground, lemma_ground_eval_any, BinaryOperator, Form};

verus! {

/// Everything that can go wrong while classifying, building or evaluating.
#[derive(Clone, Copy, Debug, PartialEq, Eq, Structural)]
pub enum Error {
    /// The input character is not part of the formula alphabet.
    InvalidSymbol(char),
    /// An operator was reached with too few operands on the working stack.
    MalformedExpression,
    /// After consuming the whole input, the stack did not hold exactly one tree.
    TrailingOperands,
    /// Evaluation reached a variable leaf that was never substituted.
    UnboundVariable,
}

/// A unary or binary operator symbol.
#[derive(Clone, Copy, Debug, PartialEq, Eq, Structural)]
pub enum Operator {
    BinaryOperator(BinaryOperator),
    Not,
}

/// A boolean constant symbol.
#[derive(Clone, Copy, Debug, PartialEq, Eq, Structural)]
pub enum Value {
    True,
    False,
}

/// One classified input symbol.
#[derive(Clone, Copy, Debug, PartialEq, Eq, Structural)]
pub enum Unit {
    Operator(Operator),
    Value(Value),
    Variable(char),
}

/// The classification of a single character: the fixed alphabet maps to
/// operators and constants, uppercase ASCII letters are variables, and every
/// other character is rejected.
pub open spec fn classify_char(c: char) -> Result<Unit, Error> {
    if c == '&' {
        Ok(Unit::Operator(Operator::BinaryOperator(BinaryOperator::And)))
    } else if c == '|' {
        Ok(Unit::Operator(Operator::BinaryOperator(BinaryOperator::Or)))
    } else if c == '>' {
        Ok(Unit::Operator(Operator::BinaryOperator(BinaryOperator::Implies)))
    } else if c == '=' {
        Ok(Unit::Operator(Operator::BinaryOperator(BinaryOperator::Equivalent)))
    } else if c == '^' {
        Ok(Unit::Operator(Operator::BinaryOperator(BinaryOperator::Xor)))
    } else if c == '!' {
        Ok(Unit::Operator(Operator::Not))
    } else if c == '1' {
        Ok(Unit::Value(Value::True))
    } else if c == '0' {
        Ok(Unit::Value(Value::False))
    } else if 'A' <= c && c <= 'Z' {
        Ok(Unit::Variable(c))
    } else {
        Err(Error::InvalidSymbol(c))
    }
}

impl Unit {
    /// Token classifier: maps one input character to its symbol, or rejects it.
    pub fn try_from(c: char) -> (r: Result<Unit, Error>)
        ensures
            r == classify_char(c),
    {
        if c == '&' {
            Ok(Unit::Operator(Operator::BinaryOperator(BinaryOperator::And)))
        } else if c == '|' {
            Ok(Unit::Operator(Operator::BinaryOperator(BinaryOperator::Or)))
        } else if c == '>' {
            Ok(Unit::Operator(Operator::BinaryOperator(BinaryOperator::Implies)))
        } else if c == '=' {
            Ok(Unit::Operator(Operator::BinaryOperator(BinaryOperator::Equivalent)))
        } else if c == '^' {
            Ok(Unit::Operator(Operator::BinaryOperator(BinaryOperator::Xor)))
        } else if c == '!' {
            Ok(Unit::Operator(Operator::Not))
        } else if c == '1' {
            Ok(Unit::Value(Value::True))
        } else if c == '0' {
            Ok(Unit::Value(Value::False))
        } else if 'A' <= c && c <= 'Z' {
            Ok(Unit::Variable(c))
        } else {
            Err(Error::InvalidSymbol(c))
        }
    }
}

/// A node of the expression tree. Leaves carry constants or variables; a NOT
/// node stores its single operand in `left`; binary nodes use both children.
#[derive(Debug)]
pub struct Node {
    pub left: Option<Box<Node>>,
    pub right: Option<Box<Node>>,
    pub unit: Unit,
}

impl Node {
    /// The arity invariant: leaves have no children, NOT has exactly a left
    /// child, binary operators have exactly two children.
    pub open spec fn wf(self) -> bool
        decreases self,
    {
        match self.unit {
            Unit::Value(_) => self.left is None && self.right is None,
            Unit::Variable(_) => self.left is None && self.right is None,
            Unit::Operator(Operator::Not) => match self.left {
                Some(l) => self.right is None && (*l).wf(),
                None => false,
            },
            Unit::Operator(Operator::BinaryOperator(_)) => match self.left {
                Some(l) => match self.right {
                    Some(r) => (*l).wf() && (*r).wf(),
                    None => false,
                },
                None => false,
            },
        }
    }

    /// The formula this tree stands for (meaningful when `wf` holds).
    pub open spec fn form(self) -> Form
        decreases self,
    {
        match self.unit {
            Unit::Value(Value::True) => Form::Val(true),
            Unit::Value(Value::False) => Form::Val(false),
            Unit::Variable(c) => Form::Var(c),
            Unit::Operator(Operator::Not) => match self.left {
                Some(l) => Form::Not(Box::new((*l).form())),
                None => arbitrary(),
            },
            Unit::Operator(Operator::BinaryOperator(op)) => match self.left {
                Some(l) => match self.right {
                    Some(r) => Form::Bin(op, Box::new((*l).form()), Box::new((*r).form())),
                    None => arbitrary(),
                },
                None => arbitrary(),
            },
        }
    }

    /// A fresh leaf node for the given symbol.
    pub fn new(unit: Unit) -> (r: Node)
        ensures
            r == (Node { left: None, right: None, unit }),
    {
        Node { left: None, right: None, unit }
    }

    /// Installs `node` as the left child (the single-operand slot for NOT).
    pub fn add_left(&mut self, node: Node)
        ensures
            *final(self) == (Node {
                left: Some(Box::new(node)),
                right: old(self).right,
                unit: old(self).unit,
            }),
    {
        self.left = Some(Box::new(node));
    }

    /// Installs `node` as the right child.
    pub fn add_right(&mut self, node: Node)
        ensures
            *final(self) == (Node {
                left: old(self).left,
                right: Some(Box::new(node)),
                unit: old(self).unit,
            }),
    {
        self.right = Some(Box::new(node));
    }

    /// Evaluates a tree by post-order recursion. Succeeds exactly when the
    /// tree is ground; a variable leaf reports `UnboundVariable`.
    pub fn solve_node(&self) -> (r: Result<bool, Error>)
        requires
            self.wf(),
        ensures
            (match r {
                Ok(b) => ground(self.form()) && b == evalc(self.form()),
                Err(e) => !ground(self.form()) && e == Error::UnboundVariable,
            }),
        decreases self,
    {
        match self.unit {
            Unit::Value(Value::True) => Ok(true),
            Unit::Value(Value::False) => Ok(false),
            Unit::Variable(_) => Err(Error::UnboundVariable),
            Unit::Operator(Operator::Not) => {
                let l = self.left.as_ref().unwrap();
                match l.solve_node() {
                    Ok(b) => Ok(!b),
                    Err(e) => Err(e),
                }
            },
            Unit::Operator(Operator::BinaryOperator(op)) => {
                let l = self.left.as_ref().unwrap();
                let r = self.right.as_ref().unwrap();
                let lv = match l.solve_node() {
                    Ok(b) => b,
                    Err(e) => return Err(e),
                };
                let rv = match r.solve_node() {
                    Ok(b) => b,
                    Err(e) => return Err(e),
                };
                Ok(
                    match op {
                        BinaryOperator::And => lv && rv,
                        BinaryOperator::Or => lv || rv,
                        BinaryOperator::Implies => !lv || rv,
                        BinaryOperator::Equivalent => lv == rv,
                        BinaryOperator::Xor => lv != rv,
                    },
                )
            },
        }
    }
}

/// The classification of a whole character sequence, stopping at the first
/// invalid character.
pub open spec fn classify_all(s: Seq<char>) -> Result<Seq<Unit>, Error>
    decreases s.len(),
{
    if s.len() == 0 {
        Ok(Seq::empty())
    } else {
        match classify_all(s.drop_last()) {
            Err(e) => Err(e),
            Ok(us) => match classify_char(s.last()) {
                Err(e) => Err(e),
                Ok(u) => Ok(us.push(u)),
            },
        }
    }
}

/// One step of the postfix builder: a leaf symbol pushes a leaf; NOT pops one
/// operand; a binary operator pops the right operand first, then the left.
pub open spec fn push_unit(stack: Seq<Form>, u: Unit) -> Result<Seq<Form>, Error> {
    match u {
        Unit::Value(Value::True) => Ok(stack.push(Form::Val(true))),
        Unit::Value(Value::False) => Ok(stack.push(Form::Val(false))),
        Unit::Variable(c) => Ok(stack.push(Form::Var(c))),
        Unit::Operator(Operator::Not) => if stack.len() >= 1 {
            Ok(stack.drop_last().push(Form::Not(Box::new(stack.last()))))
        } else {
            Err(Error::MalformedExpression)
        },
        Unit::Operator(Operator::BinaryOperator(op)) => if stack.len() >= 2 {
            Ok(
                stack.drop_last().drop_last().push(
                    Form::Bin(
                        op,
                        Box::new(stack[stack.len() - 2]),
                        Box::new(stack.last()),
                    ),
                ),
            )
        } else {
            Err(Error::MalformedExpression)
        },
    }
}

/// The working stack after consuming a symbol sequence in postfix order.
pub open spec fn build_all(us: Seq<Unit>) -> Result<Seq<Form>, Error>
    decreases us.len(),
{
    if us.len() == 0 {
        Ok(Seq::empty())
    } else {
        match build_all(us.drop_last()) {
            Err(e) => Err(e),
            Ok(stack) => push_unit(stack, us.last()),
        }
    }
}

/// The whole parse: classify every character, run the builder, and demand
/// that exactly one tree remains.
pub open spec fn parse_formula(s: Seq<char>) -> Result<Form, Error> {
    match classify_all(s) {
        Err(e) => Err(e),
        Ok(us) => match build_all(us) {
            Err(e) => Err(e),
            Ok(stack) => if stack.len() == 1 {
                Ok(stack[0])
            } else {
                Err(Error::TrailingOperands)
            },
        },
    }
}

/// The working stack after consuming a symbol sequence on top of an earlier
/// stack: the builder is a fold, so a run can be split anywhere.
pub open spec fn build_onto(stack: Seq<Form>, us: Seq<Unit>) -> Result<Seq<Form>, Error>
    decreases us.len(),
{
    if us.len() == 0 {
        Ok(stack)
    } else {
        match build_onto(stack, us.drop_last()) {
            Err(e) => Err(e),
            Ok(st) => push_unit(st, us.last()),
        }
    }
}

/// Classification of a concatenation: the left part is classified first, and
/// its error, if any, wins.
pub proof fn lemma_classify_all_append(s1: Seq<char>, s2: Seq<char>)
    ensures
        classify_all(s1 + s2) == (match classify_all(s1) {
            Err(e) => Err::<Seq<Unit>, Error>(e),
            Ok(u1) => match classify_all(s2) {
                Err(e) => Err(e),
                Ok(u2) => Ok(u1 + u2),
            },
        }),
    decreases s2.len(),
{
    if s2.len() == 0 {
        assert(s1 + s2 =~= s1);
        if classify_all(s1) is Ok {
            assert(classify_all(s1)->Ok_0 + Seq::<Unit>::empty() =~= classify_all(s1)->Ok_0);
        }
    } else {
        assert((s1 + s2).drop_last() =~= s1 + s2.drop_last());
        assert((s1 + s2).last() == s2.last());
        lemma_classify_all_append(s1, s2.drop_last());
        if classify_all(s1) is Ok && classify_all(s2.drop_last()) is Ok && classify_char(
            s2.last(),
        ) is Ok {
            let u1 = classify_all(s1)->Ok_0;
            let u2 = classify_all(s2.drop_last())->Ok_0;
            let u = classify_char(s2.last())->Ok_0;
            assert((u1 + u2).push(u) =~= u1 + u2.push(u));
        }
    }
}

/// Running the builder from the empty stack is the builder itself.
pub proof fn lemma_build_onto_empty(us: Seq<Unit>)
    ensures
        build_onto(Seq::empty(), us) == build_all(us),
    decreases us.len(),
{
    if us.len() > 0 {
        lemma_build_onto_empty(us.drop_last());
    }
}

/// A classification error at one position, after a valid prefix, is the
/// error of the whole sequence.
proof fn lemma_classify_all_err(s: Seq<char>, i: int, e: Error)
    requires
        0 <= i < s.len(),
        classify_all(s.subrange(0, i)) is Ok,
        classify_char(s[i]) == Err::<Unit, Error>(e),
    ensures
        classify_all(s) == Err::<Seq<Unit>, Error>(e),
    decreases s.len(),
{
    if s.len() == i + 1 {
        assert(s.drop_last() =~= s.subrange(0, i));
        assert(s.last() == s[i]);
    } else {
        assert(s.drop_last().subrange(0, i) =~= s.subrange(0, i));
        lemma_classify_all_err(s.drop_last(), i, e);
    }
}

/// A builder error at one position, after a prefix that builds, is the error
/// of the whole sequence.
proof fn lemma_build_all_err(us: Seq<Unit>, i: int, e: Error)
    requires
        0 <= i < us.len(),
        build_all(us.subrange(0, i)) is Ok,
        push_unit(build_all(us.subrange(0, i))->Ok_0, us[i]) == Err::<Seq<Form>, Error>(e),
    ensures
        build_all(us) == Err::<Seq<Form>, Error>(e),
    decreases us.len(),
{
    if us.len() == i + 1 {
        assert(us.drop_last() =~= us.subrange(0, i));
        assert(us.last() == us[i]);
    } else {
        assert(us.drop_last().subrange(0, i) =~= us.subrange(0, i));
        lemma_build_all_err(us.drop_last(), i, e);
    }
}

/// An expression tree together with the guarantee that it is well formed.
#[derive(Debug)]
pub struct AST {
    root: Node,
}

impl AST {
    /// Every tree held by an `AST` satisfies the arity invariant.
    #[verifier::type_invariant]
    spec fn inv(self) -> bool {
        self.root.wf()
    }

    /// The formula this tree stands for.
    pub closed spec fn form(self) -> Form {
        self.root.form()
    }

    /// The root node, for read-only traversals.
    pub fn root_node(&self) -> (r: &Node)
        ensures
            r.wf(),
            r.form() == self.form(),
    {
        proof {
            use_type_invariant(self);
        }
        &self.root
    }

    /// Evaluates the tree. Succeeds exactly when it contains no variables,
    /// and the value of a ground tree is its value under every assignment.
    pub fn solve(&self) -> (r: Result<bool, Error>)
        ensures
            (match r {
                Ok(b) => ground(self.form()) && b == evalc(self.form()),
                Err(e) => !ground(self.form()) && e == Error::UnboundVariable,
            }),
            (forall|a: Map<char, bool>|
                r matches Ok(b) ==> b == #[trigger] evalf(self.form(), a)),
    {
        proof {
            use_type_invariant(self);
        }
        let r = self.root.solve_node();
        proof {
            if r is Ok {
                assert forall|a: Map<char, bool>| #[trigger]
                    evalf(self.form(), a) == evalc(self.form()) by {
                    lemma_ground_eval_any(self.form(), a);
                }
            }
        }
        r
    }

    /// Expression builder: classifies the whole input, then folds the postfix
    /// symbol sequence over a working stack, enforcing operator arity.
    pub fn try_from(value: &str) -> (r: Result<AST, Error>)
        ensures
            (match (r, parse_formula(value@)) {
                (Ok(t), Ok(f)) => t.form() == f,
                (Err(e1), Err(e2)) => e1 == e2,
                _ => false,
            }),
    {
        let n = value.unicode_len();
        let mut tokens: Vec<Unit> = Vec::new();
        let mut i: usize = 0;
        while i < n
            invariant
                i <= n,
                n == value@.len(),
                classify_all(value@.subrange(0, i as int)) == Ok::<Seq<Unit>, Error>(tokens@),
            decreases n - i,
        {
            let c = value.get_char(i);
            proof {
                assert(value@.subrange(0, i + 1).drop_last() =~= value@.subrange(0, i as int));
                assert(value@.subrange(0, i + 1).last() == value@[i as int]);
            }
            match Unit::try_from(c) {
                Ok(u) => tokens.push(u),
                Err(e) => {
                    proof {
                        lemma_classify_all_err(value@, i as int, e);
                    }
                    return Err(e);
                },
            }
            i = i + 1;
        }
        proof {
            assert(value@.subrange(0, n as int) =~= value@);
        }

        let ghost us: Seq<Unit> = tokens@;
        let mut stack: Vec<Node> = Vec::new();
        proof {
            assert(us.subrange(0, 0) =~= Seq::<Unit>::empty());
            assert(stack@.map_values(|nd: Node| nd.form()) =~= Seq::<Form>::empty());
        }
        let mut j: usize = 0;
        while j < tokens.len()
            invariant
                j <= tokens.len(),
                tokens@ == us,
                classify_all(value@) == Ok::<Seq<Unit>, Error>(us),
                build_all(us.subrange(0, j as int)) == Ok::<Seq<Form>, Error>(
                    stack@.map_values(|nd: Node| nd.form()),
                ),
                forall|k: int| 0 <= k < stack@.len() ==> (#[trigger] stack@[k]).wf(),
            decreases tokens.len() - j,
        {
            let ghost forms = stack@.map_values(|nd: Node| nd.form());
            proof {
                assert(us.subrange(0, j + 1).drop_last() =~= us.subrange(0, j as int));
                assert(us.subrange(0, j + 1).last() == us[j as int]);
            }
            let u = tokens[j];
            match u {
                Unit::Operator(Operator::Not) => {
                    let operand = match stack.pop() {
                        Some(nd) => nd,
                        None => {
                            proof {
                                lemma_build_all_err(us, j as int, Error::MalformedExpression);
                            }
                            return Err(Error::MalformedExpression);
                        },
                    };
                    let mut token = Node::new(u);
                    token.add_left(operand);
                    stack.push(token);
                    proof {
                        assert(stack@.map_values(|nd: Node| nd.form()) =~= forms.drop_last().push(
                            Form::Not(Box::new(forms.last())),
                        ));
                    }
                },
                Unit::Operator(Operator::BinaryOperator(op)) => {
                    let right = match stack.pop() {
                        Some(nd) => nd,
                        None => {
                            proof {
                                lemma_build_all_err(us, j as int, Error::MalformedExpression);
                            }
                            return Err(Error::MalformedExpression);
                        },
                    };
                    let left = match stack.pop() {
                        Some(nd) => nd,
                        None => {
                            proof {
                                assert(forms.len() < 2);
                                lemma_build_all_err(us, j as int, Error::MalformedExpression);
                            }
                            return Err(Error::MalformedExpression);
                        },
                    };
                    let mut token = Node::new(u);
                    token.add_left(left);
                    token.add_right(right);
                    stack.push(token);
                    proof {
                        assert(forms.len() >= 2);
                        assert(stack@.map_values(|nd: Node| nd.form())
                            =~= forms.drop_last().drop_last().push(
                            Form::Bin(
                                op,
                                Box::new(forms[forms.len() - 2]),
                                Box::new(forms.last()),
                            ),
                        ));
                    }
                },
                _ => {
                    stack.push(Node::new(u));
                    proof {
                        assert(stack@.map_values(|nd: Node| nd.form()) =~= forms.push(
                            (Node { left: None, right: None, unit: u }).form(),
                        ));
                    }
                },
            }
            j = j + 1;
        }
        proof {
            assert(us.subrange(0, tokens@.len() as int) =~= us);
        }
        if stack.len() == 1 {
            let root = match stack.pop() {
                Some(nd) => nd,
                None => {
                    return Err(Error::TrailingOperands);
                },
            };
            proof {
                assert(stack@.map_values(|nd: Node| nd.form()).len() == 0);
            }
            Ok(AST { root })
        } else {
            Err(Error::TrailingOperands)
        }
    }
}

/// Parses the formula and evaluates it; the formula must be ground.
pub open spec fn eval_outcome(s: Seq<char>) -> Result<bool, Error> {
    match parse_formula(s) {
        Err(e) => Err(e),
        Ok(f) => if ground(f) {
            Ok(evalc(f))
        } else {
            Err(Error::UnboundVariable)
        },
    }
}

/// Parses a reverse-Polish formula made of constants and operators and
/// returns its boolean value.
pub fn eval_formula(formula: &str) -> (r: Result<bool, Error>)
    ensures
        r == eval_outcome(formula@),
{
    match AST::try_from(formula) {
        Ok(t) => t.solve(),
        Err(e) => Err(e),
    }
}

} // verus!
