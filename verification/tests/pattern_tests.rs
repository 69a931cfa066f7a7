use query_processing::ast::{AggregateExpression, AggregateOp, Context, Variable};
use query_processing::graph_patterns::{distinct, extend, filter, group_by, join, left_join, minus,
    order_by, prepare_group_by, project, union};
use query_processing::multitype::explode_cell_exec;
use query_processing::solution_mapping::{find_col, SolutionMappings};
use query_processing::terms::{base_eq, cell_eq, BaseRDFNodeType, LitValue, RDFNodeType, Term};

fn sm_new(
    names: Vec<String>,
    types: Vec<RDFNodeType>,
    rows: Vec<Vec<Option<Term>>>,
) -> SolutionMappings {
    match SolutionMappings::new(names, types, rows) {
        Ok(s) => s,
        Err(_) => panic!("fixture is not well formed"),
    }
}

fn int_term(n: i64) -> Term {
    Term::Lit(query_processing::terms::xsd_integer(), LitValue::I(n))
}

fn str_term(s: &str) -> Term {
    Term::Lit(query_processing::terms::xsd_string(), LitValue::S(String::from(s)))
}

fn bool_term(b: bool) -> Term {
    Term::Lit(query_processing::terms::xsd_boolean(), LitValue::B(b))
}

fn int_type() -> RDFNodeType {
    RDFNodeType::Literal(query_processing::terms::xsd_integer())
}

fn str_type() -> RDFNodeType {
    RDFNodeType::Literal(query_processing::terms::xsd_string())
}

fn get_cell(sm: &SolutionMappings, row: usize, name: &str) -> Option<Term> {
    let j = match find_col(sm, &String::from(name)) {
        Some(j) => j,
        None => panic!("column is missing"),
    };
    match &sm.rows[row][j] {
        Some(t) => Some(t.clone()),
        None => None,
    }
}

fn two_int_cols(na: &str, nb: &str, rows_in: &[(i64, i64)]) -> SolutionMappings {
    let rows: Vec<Vec<Option<Term>>> = rows_in
        .iter()
        .map(|(a, b)| vec![Some(int_term(*a)), Some(int_term(*b))])
        .collect();
    sm_new(
        vec![String::from(na), String::from(nb)],
        vec![int_type(), int_type()],
        rows,
    )
}

fn one_int_col(name: &str, values: &[i64]) -> SolutionMappings {
    let rows: Vec<Vec<Option<Term>>> = values.iter().map(|v| vec![Some(int_term(*v))]).collect();
    sm_new(vec![String::from(name)], vec![int_type()], rows)
}

#[test]
fn distinct_keeps_first_occurrences_in_order() {
    let sm = one_int_col("x", &[3, 1, 3, 2, 1]);
    let out = match distinct(sm) {
        Ok(o) => o,
        Err(_) => panic!("expected success"),
    };
    assert_eq!(out.rows.len(), 3);
    assert!(cell_eq(&get_cell(&out, 0, "x"), &Some(int_term(3))));
    assert!(cell_eq(&get_cell(&out, 1, "x"), &Some(int_term(1))));
    assert!(cell_eq(&get_cell(&out, 2, "x"), &Some(int_term(2))));
}

#[test]
fn extend_renames_expression_column() {
    let sm = one_int_col("c0", &[7]);
    let out = match extend(sm, &Context::from_str("c0"), &Variable::from_str("x")) {
        Ok(o) => o,
        Err(_) => panic!("expected success"),
    };
    assert!(find_col(&out, &String::from("c0")).is_none());
    assert!(cell_eq(&get_cell(&out, 0, "x"), &Some(int_term(7))));
}

#[test]
fn filter_keeps_true_rows_and_drops_column() {
    let sm = sm_new(
        vec![String::from("x"), String::from("c")],
        vec![int_type(), RDFNodeType::Literal(query_processing::terms::xsd_boolean())],
        vec![
            vec![Some(int_term(1)), Some(bool_term(true))],
            vec![Some(int_term(2)), Some(bool_term(false))],
            vec![Some(int_term(3)), None],
            vec![Some(int_term(4)), Some(bool_term(true))],
        ],
    );
    let out = match filter(sm, &Context::from_str("c")) {
        Ok(o) => o,
        Err(_) => panic!("expected success"),
    };
    assert_eq!(out.rows.len(), 2);
    assert!(find_col(&out, &String::from("c")).is_none());
    assert!(cell_eq(&get_cell(&out, 0, "x"), &Some(int_term(1))));
    assert!(cell_eq(&get_cell(&out, 1, "x"), &Some(int_term(4))));
}

#[test]
fn project_selects_in_request_order() {
    let sm = two_int_cols("a", "b", &[(1, 2)]);
    let out = match project(
        sm,
        &vec![Variable::from_str("b"), Variable::from_str("a"), Variable::from_str("missing")],
    ) {
        Ok(o) => o,
        Err(_) => panic!("expected success"),
    };
    assert_eq!(out.names.len(), 2);
    assert_eq!(out.names[0].as_str(), "b");
    assert_eq!(out.names[1].as_str(), "a");
    assert!(cell_eq(&get_cell(&out, 0, "b"), &Some(int_term(2))));
    assert!(cell_eq(&get_cell(&out, 0, "a"), &Some(int_term(1))));
}

#[test]
fn join_on_shared_column_keeps_matches() {
    let l = two_int_cols("a", "b", &[(1, 10), (2, 20)]);
    let r = two_int_cols("a", "c", &[(1, 100), (3, 300)]);
    let out = match join(l, r) {
        Ok(o) => o,
        Err(_) => panic!("expected success"),
    };
    assert_eq!(out.rows.len(), 1);
    assert!(cell_eq(&get_cell(&out, 0, "a"), &Some(int_term(1))));
    assert!(cell_eq(&get_cell(&out, 0, "b"), &Some(int_term(10))));
    assert!(cell_eq(&get_cell(&out, 0, "c"), &Some(int_term(100))));
}

#[test]
fn join_without_shared_columns_is_cross_product() {
    let l = one_int_col("a", &[1, 2]);
    let r = one_int_col("b", &[10, 20, 30]);
    let out = match join(l, r) {
        Ok(o) => o,
        Err(_) => panic!("expected success"),
    };
    assert_eq!(out.rows.len(), 6);
    assert!(cell_eq(&get_cell(&out, 0, "a"), &Some(int_term(1))));
    assert!(cell_eq(&get_cell(&out, 0, "b"), &Some(int_term(10))));
    assert!(cell_eq(&get_cell(&out, 5, "a"), &Some(int_term(2))));
    assert!(cell_eq(&get_cell(&out, 5, "b"), &Some(int_term(30))));
}

#[test]
fn left_join_pads_unmatched_left_rows() {
    let l = two_int_cols("a", "b", &[(1, 10), (2, 20)]);
    let r = two_int_cols("a", "c", &[(1, 100)]);
    let out = match left_join(l, r) {
        Ok(o) => o,
        Err(_) => panic!("expected success"),
    };
    assert_eq!(out.rows.len(), 2);
    assert!(cell_eq(&get_cell(&out, 0, "c"), &Some(int_term(100))));
    assert!(get_cell(&out, 1, "c").is_none());
    assert!(cell_eq(&get_cell(&out, 1, "a"), &Some(int_term(2))));
}

#[test]
fn minus_with_disjoint_variables_returns_left_unchanged() {
    let l = two_int_cols("a", "b", &[(1, 2), (3, 4)]);
    let r = one_int_col("z", &[1, 3]);
    let out = match minus(l, r) {
        Ok(o) => o,
        Err(_) => panic!("expected success"),
    };
    assert_eq!(out.rows.len(), 2);
    assert!(cell_eq(&get_cell(&out, 0, "a"), &Some(int_term(1))));
    assert!(cell_eq(&get_cell(&out, 0, "b"), &Some(int_term(2))));
    assert!(cell_eq(&get_cell(&out, 1, "a"), &Some(int_term(3))));
    assert!(cell_eq(&get_cell(&out, 1, "b"), &Some(int_term(4))));
}

#[test]
fn minus_removes_matching_rows() {
    let l = two_int_cols("a", "b", &[(1, 2), (1, 3)]);
    let r = two_int_cols("a", "b", &[(1, 2)]);
    let out = match minus(l, r) {
        Ok(o) => o,
        Err(_) => panic!("expected success"),
    };
    assert_eq!(out.rows.len(), 1);
    assert!(cell_eq(&get_cell(&out, 0, "a"), &Some(int_term(1))));
    assert!(cell_eq(&get_cell(&out, 0, "b"), &Some(int_term(3))));
}

#[test]
fn union_reconciles_types_and_keeps_both_sides() {
    let r1 = one_int_col("x", &[1, 2]);
    let rows2: Vec<Vec<Option<Term>>> = vec![
        vec![Some(str_term("a"))],
        vec![Some(str_term("b"))],
    ];
    let r2 = sm_new(vec![String::from("x")], vec![str_type()], rows2);
    let out = match union(r1, r2) {
        Ok(o) => o,
        Err(_) => panic!("expected success"),
    };
    assert_eq!(out.rows.len(), 4);
    let j = find_col(&out, &String::from("x")).unwrap_or_else(|| panic!("missing column"));
    match &out.types[j] {
        RDFNodeType::MultiType(ts) => {
            assert_eq!(ts.len(), 2);
            assert!(base_eq(
                &ts[0],
                &BaseRDFNodeType::Literal(query_processing::terms::xsd_integer()),
            ));
            assert!(base_eq(
                &ts[1],
                &BaseRDFNodeType::Literal(query_processing::terms::xsd_string()),
            ));
        },
        _ => panic!("expected a multi-type column"),
    }
    assert!(cell_eq(&get_cell(&out, 0, "x"), &Some(int_term(1))));
    assert!(cell_eq(&get_cell(&out, 1, "x"), &Some(int_term(2))));
    assert!(cell_eq(&get_cell(&out, 2, "x"), &Some(str_term("a"))));
    assert!(cell_eq(&get_cell(&out, 3, "x"), &Some(str_term("b"))));
}

#[test]
fn union_round_trip_recovers_per_type_views() {
    let r1 = one_int_col("x", &[1, 2]);
    let r2 = sm_new(
        vec![String::from("x")],
        vec![str_type()],
        vec![vec![Some(str_term("a"))], vec![Some(str_term("b"))]],
    );
    let out = match union(r1, r2) {
        Ok(o) => o,
        Err(_) => panic!("expected success"),
    };
    let int_base = BaseRDFNodeType::Literal(query_processing::terms::xsd_integer());
    let str_base = BaseRDFNodeType::Literal(query_processing::terms::xsd_string());
    // rows from the first side expose their value under the integer view only
    for (row, v) in vec![(0usize, 1i64), (1usize, 2i64)] {
        let c = get_cell(&out, row, "x");
        assert!(cell_eq(&explode_cell_exec(&c, &int_base), &Some(int_term(v))));
        assert!(explode_cell_exec(&c, &str_base).is_none());
    }
    // rows from the second side expose their value under the string view only
    for (row, v) in vec![(2usize, "a"), (3usize, "b")] {
        let c = get_cell(&out, row, "x");
        assert!(cell_eq(&explode_cell_exec(&c, &str_base), &Some(str_term(v))));
        assert!(explode_cell_exec(&c, &int_base).is_none());
    }
}

#[test]
fn union_null_fills_one_sided_columns() {
    let l = two_int_cols("a", "b", &[(1, 2)]);
    let r = one_int_col("a", &[9]);
    let out = match union(l, r) {
        Ok(o) => o,
        Err(_) => panic!("expected success"),
    };
    assert_eq!(out.rows.len(), 2);
    assert!(cell_eq(&get_cell(&out, 0, "b"), &Some(int_term(2))));
    assert!(get_cell(&out, 1, "b").is_none());
}

#[test]
fn group_by_counts_and_sums_per_key() {
    let sm = two_int_cols("k", "v", &[(1, 10), (2, 5), (1, 32)]);
    let aggs = vec![
        AggregateExpression {
            input: String::from("v"),
            op: AggregateOp::Sum,
            output: String::from("s"),
        },
        AggregateExpression {
            input: String::from("v"),
            op: AggregateOp::Count,
            output: String::from("n"),
        },
    ];
    let types = vec![
        (String::from("s"), int_type()),
        (String::from("n"), int_type()),
    ];
    let out = match group_by(sm, &aggs, vec![String::from("k")], None, &types) {
        Ok(o) => o,
        Err(_) => panic!("expected success"),
    };
    assert_eq!(out.rows.len(), 2);
    assert!(cell_eq(&get_cell(&out, 0, "k"), &Some(int_term(1))));
    assert!(cell_eq(&get_cell(&out, 0, "s"), &Some(int_term(42))));
    assert!(cell_eq(&get_cell(&out, 0, "n"), &Some(int_term(2))));
    assert!(cell_eq(&get_cell(&out, 1, "k"), &Some(int_term(2))));
    assert!(cell_eq(&get_cell(&out, 1, "s"), &Some(int_term(5))));
    assert!(cell_eq(&get_cell(&out, 1, "n"), &Some(int_term(1))));
}

#[test]
fn group_by_min_max_sample() {
    let sm = two_int_cols("k", "v", &[(1, 5), (1, 3), (1, 9)]);
    let aggs = vec![
        AggregateExpression {
            input: String::from("v"),
            op: AggregateOp::Min,
            output: String::from("lo"),
        },
        AggregateExpression {
            input: String::from("v"),
            op: AggregateOp::Max,
            output: String::from("hi"),
        },
        AggregateExpression {
            input: String::from("v"),
            op: AggregateOp::Sample,
            output: String::from("any"),
        },
    ];
    let types = vec![
        (String::from("lo"), int_type()),
        (String::from("hi"), int_type()),
        (String::from("any"), int_type()),
    ];
    let out = match group_by(sm, &aggs, vec![String::from("k")], None, &types) {
        Ok(o) => o,
        Err(_) => panic!("expected success"),
    };
    assert_eq!(out.rows.len(), 1);
    assert!(cell_eq(&get_cell(&out, 0, "lo"), &Some(int_term(3))));
    assert!(cell_eq(&get_cell(&out, 0, "hi"), &Some(int_term(9))));
    assert!(cell_eq(&get_cell(&out, 0, "any"), &Some(int_term(5))));
}

#[test]
fn global_aggregation_uses_fresh_dummy_column_and_drops_it() {
    let sm = one_int_col("v", &[4, 6]);
    let (sm2, by, dummy) = prepare_group_by(sm, &Vec::new());
    let d = match &dummy {
        Some(d) => d.clone(),
        None => panic!("expected a dummy column"),
    };
    assert_eq!(by.len(), 1);
    assert_eq!(by[0], d);
    assert_ne!(d.as_str(), "v");
    let aggs = vec![AggregateExpression {
        input: String::from("v"),
        op: AggregateOp::Sum,
        output: String::from("s"),
    }];
    let types = vec![(String::from("s"), int_type())];
    let out = match group_by(sm2, &aggs, by, dummy, &types) {
        Ok(o) => o,
        Err(_) => panic!("expected success"),
    };
    assert_eq!(out.rows.len(), 1);
    assert_eq!(out.names.len(), 1);
    assert!(find_col(&out, &d).is_none());
    assert!(cell_eq(&get_cell(&out, 0, "s"), &Some(int_term(10))));
}

#[test]
fn order_by_sorts_and_drops_key_columns() {
    let sm = sm_new(
        vec![String::from("x"), String::from("c0")],
        vec![int_type(), int_type()],
        vec![
            vec![Some(int_term(30)), Some(int_term(3))],
            vec![Some(int_term(10)), Some(int_term(1))],
            vec![None, None],
            vec![Some(int_term(20)), Some(int_term(2))],
        ],
    );
    let out = match order_by(sm, &vec![Context::from_str("c0")], vec![true]) {
        Ok(o) => o,
        Err(_) => panic!("expected success"),
    };
    assert_eq!(out.rows.len(), 4);
    assert!(find_col(&out, &String::from("c0")).is_none());
    assert!(cell_eq(&get_cell(&out, 0, "x"), &Some(int_term(10))));
    assert!(cell_eq(&get_cell(&out, 1, "x"), &Some(int_term(20))));
    assert!(cell_eq(&get_cell(&out, 2, "x"), &Some(int_term(30))));
    // the unbound sort key sorts last
    assert!(get_cell(&out, 3, "x").is_none());
}

#[test]
fn union_with_equal_types_stays_single() {
    let r1 = one_int_col("x", &[1]);
    let r2 = one_int_col("x", &[2]);
    let out = match union(r1, r2) {
        Ok(o) => o,
        Err(_) => panic!("expected success"),
    };
    let j = find_col(&out, &String::from("x")).unwrap_or_else(|| panic!("missing column"));
    match &out.types[j] {
        RDFNodeType::Literal(dt) => {
            assert_eq!(dt.as_str(), "http://www.w3.org/2001/XMLSchema#integer")
        },
        _ => panic!("expected the single type to be kept"),
    }
}

#[test]
fn chained_unions_accumulate_sorted_types() {
    let r1 = one_int_col("x", &[1]);
    let r2 = sm_new(
        vec![String::from("x")],
        vec![str_type()],
        vec![vec![Some(str_term("a"))]],
    );
    let r3 = sm_new(
        vec![String::from("x")],
        vec![RDFNodeType::Literal(query_processing::terms::xsd_boolean())],
        vec![vec![Some(bool_term(true))]],
    );
    let u12 = match union(r1, r2) {
        Ok(o) => o,
        Err(_) => panic!("expected success"),
    };
    let out = match union(u12, r3) {
        Ok(o) => o,
        Err(_) => panic!("expected success"),
    };
    assert_eq!(out.rows.len(), 3);
    let j = find_col(&out, &String::from("x")).unwrap_or_else(|| panic!("missing column"));
    match &out.types[j] {
        RDFNodeType::MultiType(ts) => {
            assert_eq!(ts.len(), 3);
            // sorted by datatype IRI: boolean, integer, string
            assert!(base_eq(
                &ts[0],
                &BaseRDFNodeType::Literal(query_processing::terms::xsd_boolean()),
            ));
            assert!(base_eq(
                &ts[1],
                &BaseRDFNodeType::Literal(query_processing::terms::xsd_integer()),
            ));
            assert!(base_eq(
                &ts[2],
                &BaseRDFNodeType::Literal(query_processing::terms::xsd_string()),
            ));
        },
        _ => panic!("expected a multi-type column"),
    }
}

#[test]
fn order_by_sorts_strings_lexicographically() {
    let sm = sm_new(
        vec![String::from("x"), String::from("c0")],
        vec![str_type(), str_type()],
        vec![
            vec![Some(str_term("pear")), Some(str_term("pear"))],
            vec![Some(str_term("apple")), Some(str_term("apple"))],
            vec![Some(str_term("banana")), Some(str_term("banana"))],
        ],
    );
    let out = match order_by(sm, &vec![Context::from_str("c0")], vec![true]) {
        Ok(o) => o,
        Err(_) => panic!("expected success"),
    };
    assert!(cell_eq(&get_cell(&out, 0, "x"), &Some(str_term("apple"))));
    assert!(cell_eq(&get_cell(&out, 1, "x"), &Some(str_term("banana"))));
    assert!(cell_eq(&get_cell(&out, 2, "x"), &Some(str_term("pear"))));
}

#[test]
fn order_by_descending_reverses() {
    let sm = sm_new(
        vec![String::from("x"), String::from("c0")],
        vec![int_type(), int_type()],
        vec![
            vec![Some(int_term(1)), Some(int_term(1))],
            vec![Some(int_term(3)), Some(int_term(3))],
            vec![Some(int_term(2)), Some(int_term(2))],
        ],
    );
    let out = match order_by(sm, &vec![Context::from_str("c0")], vec![false]) {
        Ok(o) => o,
        Err(_) => panic!("expected success"),
    };
    assert!(cell_eq(&get_cell(&out, 0, "x"), &Some(int_term(3))));
    assert!(cell_eq(&get_cell(&out, 1, "x"), &Some(int_term(2))));
    assert!(cell_eq(&get_cell(&out, 2, "x"), &Some(int_term(1))));
}
