use ready_set_boole::ast::{eval_formula, Error, Node, Operator, Unit, Value, AST};
use ready_set_boole::form::BinaryOperator;

#[test]
fn test_eval_formula() {
    assert_eq!(eval_formula("1").unwrap(), true);
    assert_eq!(eval_formula("0").unwrap(), false);
    assert_eq!(eval_formula("10&").unwrap(), false);
    assert_eq!(eval_formula("10|").unwrap(), true);
    assert_eq!(eval_formula("11>").unwrap(), true);
    assert_eq!(eval_formula("00>").unwrap(), true);
    assert_eq!(eval_formula("10>").unwrap(), false);
    assert_eq!(eval_formula("01>").unwrap(), true);
    assert_eq!(eval_formula("10=").unwrap(), false);
    assert_eq!(eval_formula("1011||=").unwrap(), true);
}

#[test]
fn eval_covers_every_operator_row() {
    // AND
    assert_eq!(eval_formula("00&").unwrap(), false);
    assert_eq!(eval_formula("01&").unwrap(), false);
    assert_eq!(eval_formula("10&").unwrap(), false);
    assert_eq!(eval_formula("11&").unwrap(), true);
    // OR
    assert_eq!(eval_formula("00|").unwrap(), false);
    assert_eq!(eval_formula("01|").unwrap(), true);
    assert_eq!(eval_formula("10|").unwrap(), true);
    assert_eq!(eval_formula("11|").unwrap(), true);
    // EQUIVALENT
    assert_eq!(eval_formula("00=").unwrap(), true);
    assert_eq!(eval_formula("01=").unwrap(), false);
    assert_eq!(eval_formula("11=").unwrap(), true);
    // XOR
    assert_eq!(eval_formula("00^").unwrap(), false);
    assert_eq!(eval_formula("01^").unwrap(), true);
    assert_eq!(eval_formula("10^").unwrap(), true);
    assert_eq!(eval_formula("11^").unwrap(), false);
    // NOT
    assert_eq!(eval_formula("0!").unwrap(), true);
    assert_eq!(eval_formula("1!").unwrap(), false);
}

#[test]
fn classifier_maps_the_whole_alphabet() {
    assert_eq!(
        Unit::try_from('&'),
        Ok(Unit::Operator(Operator::BinaryOperator(BinaryOperator::And)))
    );
    assert_eq!(
        Unit::try_from('|'),
        Ok(Unit::Operator(Operator::BinaryOperator(BinaryOperator::Or)))
    );
    assert_eq!(
        Unit::try_from('>'),
        Ok(Unit::Operator(Operator::BinaryOperator(
            BinaryOperator::Implies
        )))
    );
    assert_eq!(
        Unit::try_from('='),
        Ok(Unit::Operator(Operator::BinaryOperator(
            BinaryOperator::Equivalent
        )))
    );
    assert_eq!(
        Unit::try_from('^'),
        Ok(Unit::Operator(Operator::BinaryOperator(BinaryOperator::Xor)))
    );
    assert_eq!(Unit::try_from('!'), Ok(Unit::Operator(Operator::Not)));
    assert_eq!(Unit::try_from('1'), Ok(Unit::Value(Value::True)));
    assert_eq!(Unit::try_from('0'), Ok(Unit::Value(Value::False)));
    assert_eq!(Unit::try_from('A'), Ok(Unit::Variable('A')));
    assert_eq!(Unit::try_from('M'), Ok(Unit::Variable('M')));
    assert_eq!(Unit::try_from('Z'), Ok(Unit::Variable('Z')));
}

#[test]
fn classifier_rejects_everything_else() {
    for c in ['a', 'z', '#', ' ', '2', '@', '[', '+', '\n', '\u{e9}'] {
        assert_eq!(Unit::try_from(c), Err(Error::InvalidSymbol(c)));
    }
}

#[test]
fn arity_errors_are_reported_not_panicked() {
    assert_eq!(eval_formula("1&"), Err(Error::MalformedExpression));
    assert_eq!(eval_formula("!"), Err(Error::MalformedExpression));
    assert_eq!(eval_formula("&"), Err(Error::MalformedExpression));
    assert_eq!(eval_formula("1!&"), Err(Error::MalformedExpression));
    assert_eq!(eval_formula(""), Err(Error::TrailingOperands));
    assert_eq!(eval_formula("11"), Err(Error::TrailingOperands));
    assert_eq!(eval_formula("10&1"), Err(Error::TrailingOperands));
}

#[test]
fn invalid_symbol_wins_over_later_build_errors() {
    assert_eq!(eval_formula("1x&"), Err(Error::InvalidSymbol('x')));
    assert_eq!(eval_formula("&#"), Err(Error::InvalidSymbol('#')));
}

#[test]
fn unsubstituted_variable_is_reported() {
    assert_eq!(eval_formula("A"), Err(Error::UnboundVariable));
    assert_eq!(eval_formula("AB&"), Err(Error::UnboundVariable));
    assert_eq!(eval_formula("1A|"), Err(Error::UnboundVariable));
}

#[test]
fn nodes_built_by_hand_evaluate() {
    // (1 & 0) | !0
    let mut and_node = Node::new(Unit::Operator(Operator::BinaryOperator(BinaryOperator::And)));
    and_node.add_left(Node::new(Unit::Value(Value::True)));
    and_node.add_right(Node::new(Unit::Value(Value::False)));
    let mut not_node = Node::new(Unit::Operator(Operator::Not));
    not_node.add_left(Node::new(Unit::Value(Value::False)));
    let mut or_node = Node::new(Unit::Operator(Operator::BinaryOperator(BinaryOperator::Or)));
    or_node.add_left(and_node);
    or_node.add_right(not_node);
    assert_eq!(or_node.solve_node(), Ok(true));
    assert_eq!(
        Node::new(Unit::Variable('Q')).solve_node(),
        Err(Error::UnboundVariable)
    );
}

#[test]
fn ast_solve_matches_eval() {
    let tree = AST::try_from("1011||=").unwrap();
    assert_eq!(tree.solve(), Ok(true));
    let tree = AST::try_from("A1&").unwrap();
    assert_eq!(tree.solve(), Err(Error::UnboundVariable));
    assert!(AST::try_from("1&").is_err());
}
