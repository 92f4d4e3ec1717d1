use ready_set_boole::ast::Error;
use ready_set_boole::nnf::negation_normal_form;

#[test]
fn nnf_rewrites_each_connective() {
    assert_eq!(negation_normal_form("AB&!").unwrap(), "A!B!|");
    assert_eq!(negation_normal_form("AB|!").unwrap(), "A!B!&");
    assert_eq!(negation_normal_form("AB>").unwrap(), "A!B|");
    assert_eq!(negation_normal_form("AB=").unwrap(), "AB&A!B!&|");
    assert_eq!(negation_normal_form("AB^").unwrap(), "AB!&A!B&|");
}

#[test]
fn nnf_eliminates_double_negation() {
    assert_eq!(negation_normal_form("A!!").unwrap(), "A");
    assert_eq!(negation_normal_form("A!!!").unwrap(), "A!");
    assert_eq!(negation_normal_form("AB&!!").unwrap(), "AB&");
}

#[test]
fn nnf_leaves_normal_forms_alone() {
    assert_eq!(negation_normal_form("A").unwrap(), "A");
    assert_eq!(negation_normal_form("A!").unwrap(), "A!");
    assert_eq!(negation_normal_form("AB&").unwrap(), "AB&");
    assert_eq!(negation_normal_form("A!B|").unwrap(), "A!B|");
    assert_eq!(negation_normal_form("1!").unwrap(), "1!");
    assert_eq!(negation_normal_form("0").unwrap(), "0");
}

#[test]
fn nnf_pushes_negation_through_nested_operators() {
    assert_eq!(negation_normal_form("AB>!").unwrap(), "AB!&");
    assert_eq!(negation_normal_form("AB=!").unwrap(), "A!B!|AB|&");
    assert_eq!(negation_normal_form("AB^!").unwrap(), "A!B|AB!|&");
    assert_eq!(negation_normal_form("AB&CD|&!").unwrap(), "A!B!|C!D!&|");
}

#[test]
fn nnf_is_idempotent_on_samples() {
    for f in ["AB&!", "AB|!", "AB>", "AB=", "AB^", "ABC|&!", "A!!"] {
        let once = negation_normal_form(f).unwrap();
        let twice = negation_normal_form(&once).unwrap();
        assert_eq!(twice, once);
    }
}

#[test]
fn nnf_reports_parse_errors() {
    assert_eq!(negation_normal_form("1&"), Err(Error::MalformedExpression));
    assert_eq!(negation_normal_form(""), Err(Error::TrailingOperands));
    assert_eq!(negation_normal_form("a"), Err(Error::InvalidSymbol('a')));
}
