use query_processing::ast::{Context, Expression, Function, Literal, NamedNode, Operator, Variable};
use query_processing::errors::QueryProcessingError;
use query_processing::expressions::{binary_expression, bound, coalesce_expression,
    compatible_operation, exists_expression, if_expression, in_expression, literal, named_node,
    not_expression, unary_minus, unary_plus, variable};
use query_processing::functions::func_expression;
use query_processing::solution_mapping::{find_col, SolutionMappings};
use query_processing::terms::{cell_eq, LitValue, RDFNodeType, Term};

fn sm_new(
    names: Vec<String>,
    types: Vec<RDFNodeType>,
    rows: Vec<Vec<Option<Term>>>,
) -> SolutionMappings {
    match SolutionMappings::new(names, types, rows) {
        Ok(s) => s,
        Err(_) => panic!("fixture is not well formed"),
    }
}

fn int_term(n: i64) -> Term {
    Term::Lit(query_processing::terms::xsd_integer(), LitValue::I(n))
}

fn str_term(s: &str) -> Term {
    Term::Lit(query_processing::terms::xsd_string(), LitValue::S(String::from(s)))
}

fn bool_term(b: bool) -> Term {
    Term::Lit(query_processing::terms::xsd_boolean(), LitValue::B(b))
}

fn dt_term(ms: i64) -> Term {
    Term::Lit(query_processing::terms::xsd_date_time(), LitValue::D(ms))
}

fn int_col(values: &[i64]) -> (RDFNodeType, Vec<Option<Term>>) {
    let cells: Vec<Option<Term>> = values.iter().map(|v| Some(int_term(*v))).collect();
    (RDFNodeType::Literal(query_processing::terms::xsd_integer()), cells)
}

fn get_cell(sm: &SolutionMappings, row: usize, name: &str) -> Option<Term> {
    let j = match find_col(sm, &String::from(name)) {
        Some(j) => j,
        None => panic!("column is missing"),
    };
    match &sm.rows[row][j] {
        Some(t) => Some(t.clone()),
        None => None,
    }
}

fn one_int_col(name: &str, values: &[i64]) -> SolutionMappings {
    let (t, cells) = int_col(values);
    let rows: Vec<Vec<Option<Term>>> = cells.into_iter().map(|c| vec![c]).collect();
    sm_new(vec![String::from(name)], vec![t], rows)
}

#[test]
fn named_node_adds_iri_column() {
    let sm = one_int_col("x", &[1, 2]);
    let out = named_node(sm, &NamedNode::from_str("http://example.com/a"), &Context::from_str("c0"))
        .ok()
        .unwrap_or_else(|| panic!("expected success"));
    match get_cell(&out, 0, "c0") {
        Some(Term::Iri(s)) => assert_eq!(s, "http://example.com/a"),
        _ => panic!("expected an IRI cell"),
    }
}

#[test]
fn literal_adds_typed_column() {
    let sm = one_int_col("x", &[7]);
    let lit = Literal::new(query_processing::terms::xsd_integer(), LitValue::I(42));
    let out = match literal(sm, &lit, &Context::from_str("c0")) {
        Ok(o) => o,
        Err(_) => panic!("expected success"),
    };
    assert!(cell_eq(&get_cell(&out, 0, "c0"), &Some(int_term(42))));
}

#[test]
fn variable_copies_column_and_missing_variable_fails() {
    let sm = one_int_col("x", &[5]);
    let out = match variable(sm, &Variable::from_str("x"), &Context::from_str("c0")) {
        Ok(o) => o,
        Err(_) => panic!("expected success"),
    };
    assert!(cell_eq(&get_cell(&out, 0, "c0"), &Some(int_term(5))));

    let sm2 = one_int_col("x", &[5]);
    match variable(sm2, &Variable::from_str("y"), &Context::from_str("c1")) {
        Err(QueryProcessingError::VariableNotFound(name, _)) => assert_eq!(name, "y"),
        _ => panic!("expected VariableNotFound"),
    }
}

fn two_ctx_cols(a: &[i64], b: &[i64]) -> SolutionMappings {
    let (t1, c1) = int_col(a);
    let (t2, c2) = int_col(b);
    let rows: Vec<Vec<Option<Term>>> = c1
        .into_iter()
        .zip(c2.into_iter())
        .map(|(x, y)| vec![x, y])
        .collect();
    sm_new(vec![String::from("l"), String::from("r")], vec![t1, t2], rows)
}

#[test]
fn comparison_records_boolean_type() {
    let sm = two_ctx_cols(&[1, 5], &[3, 3]);
    let out = match binary_expression(
        sm,
        Operator::Lt,
        &Context::from_str("l"),
        &Context::from_str("r"),
        &Context::from_str("c"),
    ) {
        Ok(o) => o,
        Err(_) => panic!("expected success"),
    };
    let j = find_col(&out, &String::from("c")).unwrap_or_else(|| panic!("missing column"));
    match &out.types[j] {
        RDFNodeType::Literal(dt) => {
            assert_eq!(dt.as_str(), "http://www.w3.org/2001/XMLSchema#boolean")
        },
        _ => panic!("expected a literal type"),
    }
    assert!(cell_eq(&get_cell(&out, 0, "c"), &Some(bool_term(true))));
    assert!(cell_eq(&get_cell(&out, 1, "c"), &Some(bool_term(false))));
}

#[test]
fn division_by_integer_promotes_to_double() {
    let sm = two_ctx_cols(&[10, 10], &[4, 4]);
    let out = match binary_expression(
        sm,
        Operator::Divide,
        &Context::from_str("l"),
        &Context::from_str("r"),
        &Context::from_str("c"),
    ) {
        Ok(o) => o,
        Err(_) => panic!("expected success"),
    };
    let j = find_col(&out, &String::from("c")).unwrap_or_else(|| panic!("missing column"));
    match &out.types[j] {
        RDFNodeType::Literal(dt) => {
            assert_eq!(dt.as_str(), "http://www.w3.org/2001/XMLSchema#double")
        },
        _ => panic!("expected a literal type"),
    }
    for row in 0..2 {
        match get_cell(&out, row, "c") {
            Some(Term::Lit(_, LitValue::F(n, d))) => {
                assert_eq!(n as f64 / d as f64, 2.5f64);
            },
            _ => panic!("expected a fraction cell"),
        }
    }
}

#[test]
fn addition_keeps_left_integer_type() {
    let sm = two_ctx_cols(&[2, 3], &[10, 20]);
    let out = match binary_expression(
        sm,
        Operator::Plus,
        &Context::from_str("l"),
        &Context::from_str("r"),
        &Context::from_str("c"),
    ) {
        Ok(o) => o,
        Err(_) => panic!("expected success"),
    };
    assert!(cell_eq(&get_cell(&out, 0, "c"), &Some(int_term(12))));
    assert!(cell_eq(&get_cell(&out, 1, "c"), &Some(int_term(23))));
}

#[test]
fn unary_minus_negates() {
    let sm = one_int_col("m", &[4, -7]);
    let out = match unary_minus(sm, &Context::from_str("m"), &Context::from_str("c")) {
        Ok(o) => o,
        Err(_) => panic!("expected success"),
    };
    assert!(cell_eq(&get_cell(&out, 0, "c"), &Some(int_term(-4))));
    assert!(cell_eq(&get_cell(&out, 1, "c"), &Some(int_term(7))));
}

#[test]
fn unary_plus_copies() {
    let sm = one_int_col("p", &[9]);
    let out = match unary_plus(sm, &Context::from_str("p"), &Context::from_str("c")) {
        Ok(o) => o,
        Err(_) => panic!("expected success"),
    };
    assert!(cell_eq(&get_cell(&out, 0, "c"), &Some(int_term(9))));
}

#[test]
fn not_negates_booleans() {
    let t = RDFNodeType::Literal(query_processing::terms::xsd_boolean());
    let sm = sm_new(
        vec![String::from("b")],
        vec![t],
        vec![vec![Some(bool_term(true))], vec![Some(bool_term(false))], vec![None]],
    );
    let out = match not_expression(sm, &Context::from_str("b"), &Context::from_str("c")) {
        Ok(o) => o,
        Err(_) => panic!("expected success"),
    };
    assert!(cell_eq(&get_cell(&out, 0, "c"), &Some(bool_term(false))));
    assert!(cell_eq(&get_cell(&out, 1, "c"), &Some(bool_term(true))));
    assert!(get_cell(&out, 2, "c").is_none());
}

#[test]
fn bound_is_true_exactly_on_bound_cells() {
    let (t, _) = int_col(&[]);
    let sm = sm_new(
        vec![String::from("x")],
        vec![t],
        vec![vec![Some(int_term(1))], vec![None]],
    );
    let out = match bound(sm, &Variable::from_str("x"), &Context::from_str("c")) {
        Ok(o) => o,
        Err(_) => panic!("expected success"),
    };
    assert!(cell_eq(&get_cell(&out, 0, "c"), &Some(bool_term(true))));
    assert!(cell_eq(&get_cell(&out, 1, "c"), &Some(bool_term(false))));
}

#[test]
fn if_takes_branch_by_condition() {
    let tb = RDFNodeType::Literal(query_processing::terms::xsd_boolean());
    let (ti, _) = int_col(&[]);
    let (ti2, _) = int_col(&[]);
    let sm = sm_new(
        vec![String::from("c"), String::from("t"), String::from("e")],
        vec![tb, ti, ti2],
        vec![
            vec![Some(bool_term(true)), Some(int_term(1)), Some(int_term(2))],
            vec![Some(bool_term(false)), Some(int_term(1)), Some(int_term(2))],
        ],
    );
    let out = match if_expression(
        sm,
        &Context::from_str("c"),
        &Context::from_str("t"),
        &Context::from_str("e"),
        &Context::from_str("o"),
    ) {
        Ok(o) => o,
        Err(_) => panic!("expected success"),
    };
    assert!(cell_eq(&get_cell(&out, 0, "o"), &Some(int_term(1))));
    assert!(cell_eq(&get_cell(&out, 1, "o"), &Some(int_term(2))));
}

#[test]
fn coalesce_takes_first_bound() {
    let (t1, _) = int_col(&[]);
    let (t2, _) = int_col(&[]);
    let sm = sm_new(
        vec![String::from("a"), String::from("b")],
        vec![t1, t2],
        vec![
            vec![None, Some(int_term(2))],
            vec![Some(int_term(1)), Some(int_term(2))],
            vec![None, None],
        ],
    );
    let out = match coalesce_expression(
        sm,
        vec![Context::from_str("a"), Context::from_str("b")],
        &Context::from_str("o"),
    ) {
        Ok(o) => o,
        Err(_) => panic!("expected success"),
    };
    assert!(cell_eq(&get_cell(&out, 0, "o"), &Some(int_term(2))));
    assert!(cell_eq(&get_cell(&out, 1, "o"), &Some(int_term(1))));
    assert!(get_cell(&out, 2, "o").is_none());
}

#[test]
fn in_with_empty_candidates_is_false_for_every_row() {
    let sm = one_int_col("l", &[1, 99, -5]);
    let out = match in_expression(
        sm,
        &Context::from_str("l"),
        &Vec::new(),
        &Context::from_str("c"),
    ) {
        Ok(o) => o,
        Err(_) => panic!("expected success"),
    };
    for row in 0..3 {
        assert!(cell_eq(&get_cell(&out, row, "c"), &Some(bool_term(false))));
    }
}

#[test]
fn in_finds_matching_candidate() {
    let (t1, _) = int_col(&[]);
    let (t2, _) = int_col(&[]);
    let (t3, _) = int_col(&[]);
    let sm = sm_new(
        vec![String::from("l"), String::from("r1"), String::from("r2")],
        vec![t1, t2, t3],
        vec![
            vec![Some(int_term(5)), Some(int_term(4)), Some(int_term(5))],
            vec![Some(int_term(5)), Some(int_term(1)), Some(int_term(2))],
        ],
    );
    let out = match in_expression(
        sm,
        &Context::from_str("l"),
        &vec![Context::from_str("r1"), Context::from_str("r2")],
        &Context::from_str("c"),
    ) {
        Ok(o) => o,
        Err(_) => panic!("expected success"),
    };
    assert!(cell_eq(&get_cell(&out, 0, "c"), &Some(bool_term(true))));
    assert!(cell_eq(&get_cell(&out, 1, "c"), &Some(bool_term(false))));
}

#[test]
fn exists_membership_ignores_duplicates() {
    let sm = one_int_col("k", &[1, 2, 3]);
    let probe = one_int_col("k", &[2, 2, 2]);
    let out = match exists_expression(
        sm,
        probe,
        &Context::from_str("k"),
        &Context::from_str("c"),
    ) {
        Ok(o) => o,
        Err(_) => panic!("expected success"),
    };
    assert!(cell_eq(&get_cell(&out, 0, "c"), &Some(bool_term(false))));
    assert!(cell_eq(&get_cell(&out, 1, "c"), &Some(bool_term(true))));
    assert!(cell_eq(&get_cell(&out, 2, "c"), &Some(bool_term(false))));

    let sm2 = one_int_col("k", &[1, 2, 3]);
    let probe2 = one_int_col("k", &[2]);
    let out2 = match exists_expression(
        sm2,
        probe2,
        &Context::from_str("k"),
        &Context::from_str("c"),
    ) {
        Ok(o) => o,
        Err(_) => panic!("expected success"),
    };
    for row in 0..3 {
        assert!(cell_eq(&get_cell(&out, row, "c"), &get_cell(&out2, row, "c")));
    }
}

#[test]
fn compatible_operation_cases() {
    let int_iri = NamedNode::new(query_processing::terms::xsd_integer());
    let str_iri = NamedNode::new(query_processing::terms::xsd_string());
    match compatible_operation(Expression::Add, &int_iri, &int_iri) {
        Ok(b) => assert!(b),
        Err(_) => panic!("expected success"),
    }
    match compatible_operation(Expression::Add, &int_iri, &str_iri) {
        Ok(b) => assert!(!b),
        Err(_) => panic!("expected success"),
    }
    match compatible_operation(Expression::Less, &str_iri, &str_iri) {
        Ok(b) => assert!(b),
        Err(_) => panic!("expected success"),
    }
    match compatible_operation(Expression::Other(String::from("str")), &int_iri, &int_iri) {
        Err(QueryProcessingError::UnsupportedExpression(_)) => {},
        _ => panic!("expected UnsupportedExpression"),
    }
}

#[test]
fn year_month_day_of_known_instant() {
    // 1_000_000_000_000 ms after the epoch is 2001-09-09T01:46:40Z
    let t = RDFNodeType::Literal(query_processing::terms::xsd_date_time());
    let checks: Vec<(Function, i64)> = vec![
        (Function::Year, 2001),
        (Function::Month, 9),
        (Function::Day, 9),
        (Function::Hours, 1),
        (Function::Minutes, 46),
        (Function::Seconds, 40),
    ];
    for (f, expected) in checks {
        let sm = sm_new(
            vec![String::from("d")],
            vec![t.clone()],
            vec![vec![Some(dt_term(1_000_000_000_000))]],
        );
        let out = match func_expression(
            sm,
            &f,
            &vec![Expression::Other(String::from("arg"))],
            &vec![Context::from_str("d")],
            &Context::from_str("c"),
        ) {
            Ok(o) => o,
            Err(_) => panic!("expected success"),
        };
        match get_cell(&out, 0, "c") {
            Some(Term::Lit(_, LitValue::I(n))) => assert_eq!(n, expected),
            _ => panic!("expected an integer cell"),
        }
    }
}

#[test]
fn abs_ceil_floor_round() {
    let td = RDFNodeType::Literal(query_processing::terms::xsd_double());
    let half = |n: i64, d: i64| Some(Term::Lit(query_processing::terms::xsd_double(), LitValue::F(n, d)));
    // abs
    let sm = one_int_col("a", &[-3]);
    let out = match func_expression(
        sm,
        &Function::Abs,
        &vec![Expression::Other(String::from("arg"))],
        &vec![Context::from_str("a")],
        &Context::from_str("c"),
    ) {
        Ok(o) => o,
        Err(_) => panic!("expected success"),
    };
    assert!(cell_eq(&get_cell(&out, 0, "c"), &Some(int_term(3))));
    // ceil and floor of 7/2
    for (f, expected) in vec![(Function::Ceil, 4i64), (Function::Floor, 3i64)] {
        let sm2 = sm_new(vec![String::from("a")], vec![td.clone()], vec![vec![half(7, 2)]]);
        let out2 = match func_expression(
            sm2,
            &f,
            &vec![Expression::Other(String::from("arg"))],
            &vec![Context::from_str("a")],
            &Context::from_str("c"),
        ) {
            Ok(o) => o,
            Err(_) => panic!("expected success"),
        };
        assert!(cell_eq(&get_cell(&out2, 0, "c"), &Some(int_term(expected))));
    }
    // round half away from zero: 5/2 rounds to 3
    let sm3 = sm_new(vec![String::from("a")], vec![td.clone()], vec![vec![half(5, 2)]]);
    let out3 = match func_expression(
        sm3,
        &Function::Round,
        &vec![Expression::Other(String::from("arg"))],
        &vec![Context::from_str("a")],
        &Context::from_str("c"),
    ) {
        Ok(o) => o,
        Err(_) => panic!("expected success"),
    };
    match get_cell(&out3, 0, "c") {
        Some(Term::Lit(_, LitValue::F(n, d))) => {
            assert_eq!(n, 3);
            assert_eq!(d, 1);
        },
        _ => panic!("expected a fraction cell"),
    }
}

#[test]
fn concat_and_string_predicates() {
    let ts = RDFNodeType::Literal(query_processing::terms::xsd_string());
    let sm = sm_new(
        vec![String::from("a"), String::from("b")],
        vec![ts.clone(), ts.clone()],
        vec![vec![Some(str_term("foo")), Some(str_term("bar"))]],
    );
    let out = match func_expression(
        sm,
        &Function::Concat,
        &vec![
            Expression::Other(String::from("arg")),
            Expression::Other(String::from("arg")),
        ],
        &vec![Context::from_str("a"), Context::from_str("b")],
        &Context::from_str("c"),
    ) {
        Ok(o) => o,
        Err(_) => panic!("expected success"),
    };
    assert!(cell_eq(&get_cell(&out, 0, "c"), &Some(str_term("foobar"))));

    for (f, expected) in vec![
        (Function::Contains, true),
        (Function::StrStarts, false),
        (Function::StrEnds, true),
    ] {
        let sm2 = sm_new(
            vec![String::from("a"), String::from("b")],
            vec![ts.clone(), ts.clone()],
            vec![vec![Some(str_term("abcd")), Some(str_term("cd"))]],
        );
        let out2 = match func_expression(
            sm2,
            &f,
            &vec![
                Expression::Other(String::from("arg")),
                Expression::Other(String::from("arg")),
            ],
            &vec![Context::from_str("a"), Context::from_str("b")],
            &Context::from_str("c"),
        ) {
            Ok(o) => o,
            Err(_) => panic!("expected success"),
        };
        assert!(cell_eq(&get_cell(&out2, 0, "c"), &Some(bool_term(expected))));
    }
}

#[test]
fn regex_is_substring_containment() {
    let ts = RDFNodeType::Literal(query_processing::terms::xsd_string());
    let sm = sm_new(
        vec![String::from("a")],
        vec![ts],
        vec![vec![Some(str_term("hayneedlestack"))], vec![Some(str_term("haystack"))]],
    );
    let pattern = Literal::new(
        query_processing::terms::xsd_string(),
        LitValue::S(String::from("needle")),
    );
    let out = match func_expression(
        sm,
        &Function::Regex,
        &vec![Expression::Other(String::from("arg")), Expression::Literal(pattern)],
        &vec![Context::from_str("a")],
        &Context::from_str("c"),
    ) {
        Ok(o) => o,
        Err(_) => panic!("expected success"),
    };
    assert!(cell_eq(&get_cell(&out, 0, "c"), &Some(bool_term(true))));
    assert!(cell_eq(&get_cell(&out, 1, "c"), &Some(bool_term(false))));
}

#[test]
fn integer_and_string_casts() {
    // xsd:integer applied to a double column truncates toward zero
    let td = RDFNodeType::Literal(query_processing::terms::xsd_double());
    let sm = sm_new(
        vec![String::from("a")],
        vec![td],
        vec![vec![Some(Term::Lit(query_processing::terms::xsd_double(), LitValue::F(-7, 2)))]],
    );
    let cast_int = Function::Custom(NamedNode::new(query_processing::terms::xsd_integer()));
    let out = match func_expression(
        sm,
        &cast_int,
        &vec![Expression::Other(String::from("arg"))],
        &vec![Context::from_str("a")],
        &Context::from_str("c"),
    ) {
        Ok(o) => o,
        Err(_) => panic!("expected success"),
    };
    assert!(cell_eq(&get_cell(&out, 0, "c"), &Some(int_term(-3))));

    // xsd:string applied to an integer column renders decimal digits
    let sm2 = one_int_col("a", &[-42]);
    let cast_str = Function::Custom(NamedNode::new(query_processing::terms::xsd_string()));
    let out2 = match func_expression(
        sm2,
        &cast_str,
        &vec![Expression::Other(String::from("arg"))],
        &vec![Context::from_str("a")],
        &Context::from_str("c"),
    ) {
        Ok(o) => o,
        Err(_) => panic!("expected success"),
    };
    assert!(cell_eq(&get_cell(&out2, 0, "c"), &Some(str_term("-42"))));
}

#[test]
fn epoch_conversions() {
    let t = RDFNodeType::Literal(query_processing::terms::xsd_date_time());
    let sm = sm_new(vec![String::from("a")], vec![t], vec![vec![Some(dt_term(1_500))]]);
    let f = Function::Custom(NamedNode::from_str(
        query_processing::constants::datetime_as_seconds(),
    ));
    let out = match func_expression(
        sm,
        &f,
        &vec![Expression::Other(String::from("arg"))],
        &vec![Context::from_str("a")],
        &Context::from_str("c"),
    ) {
        Ok(o) => o,
        Err(_) => panic!("expected success"),
    };
    assert!(cell_eq(&get_cell(&out, 0, "c"), &Some(int_term(1))));

    let sm2 = one_int_col("a", &[3]);
    let g = Function::Custom(NamedNode::from_str(
        query_processing::constants::seconds_as_datetime(),
    ));
    let out2 = match func_expression(
        sm2,
        &g,
        &vec![Expression::Other(String::from("arg"))],
        &vec![Context::from_str("a")],
        &Context::from_str("c"),
    ) {
        Ok(o) => o,
        Err(_) => panic!("expected success"),
    };
    assert!(cell_eq(&get_cell(&out2, 0, "c"), &Some(dt_term(3_000))));
}

#[test]
fn modulus_and_interval_flooring() {
    let (ti, _) = int_col(&[]);
    let (ti2, _) = int_col(&[]);
    let sm = sm_new(
        vec![String::from("a"), String::from("b")],
        vec![ti, ti2],
        vec![vec![Some(int_term(17)), Some(int_term(5))]],
    );
    let f = Function::Custom(NamedNode::from_str(query_processing::constants::modulus()));
    let out = match func_expression(
        sm,
        &f,
        &vec![
            Expression::Other(String::from("arg")),
            Expression::Other(String::from("arg")),
        ],
        &vec![Context::from_str("a"), Context::from_str("b")],
        &Context::from_str("c"),
    ) {
        Ok(o) => o,
        Err(_) => panic!("expected success"),
    };
    assert!(cell_eq(&get_cell(&out, 0, "c"), &Some(int_term(2))));

    let td = RDFNodeType::Literal(query_processing::terms::xsd_date_time());
    let (ti3, _) = int_col(&[]);
    let sm2 = sm_new(
        vec![String::from("a"), String::from("b")],
        vec![td, ti3],
        vec![vec![Some(dt_term(67_000)), Some(int_term(60))]],
    );
    let g = Function::Custom(NamedNode::from_str(
        query_processing::constants::floor_datetime_to_seconds_interval(),
    ));
    let out2 = match func_expression(
        sm2,
        &g,
        &vec![
            Expression::Other(String::from("arg")),
            Expression::Other(String::from("arg")),
        ],
        &vec![Context::from_str("a"), Context::from_str("b")],
        &Context::from_str("c"),
    ) {
        Ok(o) => o,
        Err(_) => panic!("expected success"),
    };
    assert!(cell_eq(&get_cell(&out2, 0, "c"), &Some(dt_term(60_000))));
}

#[test]
fn unsupported_function_and_wrong_arity_fail() {
    let sm = one_int_col("a", &[1]);
    match func_expression(
        sm,
        &Function::Other(String::from("LANG")),
        &vec![Expression::Other(String::from("arg"))],
        &vec![Context::from_str("a")],
        &Context::from_str("c"),
    ) {
        Err(QueryProcessingError::UnsupportedFunction(_)) => {},
        _ => panic!("expected UnsupportedFunction"),
    }
    let sm2 = one_int_col("a", &[1]);
    match func_expression(
        sm2,
        &Function::Abs,
        &vec![
            Expression::Other(String::from("arg")),
            Expression::Other(String::from("arg")),
        ],
        &vec![Context::from_str("a"), Context::from_str("a")],
        &Context::from_str("c"),
    ) {
        Err(QueryProcessingError::UnsupportedFunction(_)) => {},
        _ => panic!("expected UnsupportedFunction"),
    }
}
