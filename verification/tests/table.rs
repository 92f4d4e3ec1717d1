use ready_set_boole::ast::Error;
use ready_set_boole::nnf::negation_normal_form;
use ready_set_boole::table::{row_values_vec, substitute, truth_table, variables};

#[test]
fn variables_are_distinct_and_ascending() {
    assert_eq!(variables("AB&"), vec!['A', 'B']);
    assert_eq!(variables("BA&"), vec!['A', 'B']);
    assert_eq!(variables("ABCA"), vec!['A', 'B', 'C']);
    assert_eq!(variables("ZYA||"), vec!['A', 'Y', 'Z']);
    assert_eq!(variables("10&"), Vec::<char>::new());
    assert_eq!(variables("aA zZ"), vec!['A', 'Z']);
}

#[test]
fn row_values_follow_the_bit_rule() {
    // Two variables: the first varies slowest.
    assert_eq!(row_values_vec(2, 0), vec![false, false]);
    assert_eq!(row_values_vec(2, 1), vec![false, true]);
    assert_eq!(row_values_vec(2, 2), vec![true, false]);
    assert_eq!(row_values_vec(2, 3), vec![true, true]);
    assert_eq!(row_values_vec(0, 0), Vec::<bool>::new());
    assert_eq!(row_values_vec(3, 5), vec![true, false, true]);
}

#[test]
fn substitution_replaces_only_variables() {
    let vars = vec!['A', 'B'];
    let vals = vec![true, false];
    assert_eq!(substitute("AB&", &vars, &vals), "10&");
    assert_eq!(substitute("AB>A|", &vars, &vals), "10>1|");
    assert_eq!(substitute("10&", &vars, &vals), "10&");
    assert_eq!(substitute("AZ&", &vars, &vals), "1Z&");
}

#[test]
fn truth_table_of_conjunction() {
    let t = truth_table("AB&").unwrap();
    assert_eq!(t.vars, vec!['A', 'B']);
    assert_eq!(t.rows.len(), 4);
    let expected = [
        (vec![false, false], false),
        (vec![false, true], false),
        (vec![true, false], false),
        (vec![true, true], true),
    ];
    for (row, (values, result)) in t.rows.iter().zip(expected.iter()) {
        assert_eq!(&row.values, values);
        assert_eq!(row.result, *result);
    }
}

#[test]
fn truth_table_without_variables_has_one_row() {
    let t = truth_table("10&").unwrap();
    assert!(t.vars.is_empty());
    assert_eq!(t.rows.len(), 1);
    assert_eq!(t.rows[0].values, Vec::<bool>::new());
    assert_eq!(t.rows[0].result, false);
}

#[test]
fn truth_table_row_count_is_two_to_the_n() {
    for (formula, n) in [("A", 1), ("AB|", 2), ("ABC&&", 3), ("ABCD&&&", 4)] {
        let t = truth_table(formula).unwrap();
        assert_eq!(t.vars.len(), n);
        assert_eq!(t.rows.len(), 1usize << n);
    }
}

#[test]
fn truth_table_reports_malformed_formulas() {
    assert_eq!(truth_table("A&").map(|_| ()), Err(Error::MalformedExpression));
    assert_eq!(truth_table("").map(|_| ()), Err(Error::TrailingOperands));
    assert_eq!(truth_table("A#|").map(|_| ()), Err(Error::InvalidSymbol('#')));
}

#[test]
fn nnf_preserves_every_truth_table_row() {
    for formula in ["AB&!", "AB|!", "AB>", "AB=", "AB^", "ABC^>!", "ABCD=>^!", "A1&B|"] {
        let original = truth_table(formula).unwrap();
        let rewritten = truth_table(&negation_normal_form(formula).unwrap()).unwrap();
        assert_eq!(original.vars, rewritten.vars);
        assert_eq!(original.rows.len(), rewritten.rows.len());
        for (a, b) in original.rows.iter().zip(rewritten.rows.iter()) {
            assert_eq!(a.values, b.values);
            assert_eq!(a.result, b.result);
        }
    }
}
