use vstd::prelude::*;
use crate::ast::{Context, Literal, NamedNode, Operator, Variable, Expression};
use crate::errors::QueryProcessingError;
use crate::eval::{eval_binary, eval_not, eval_bound, eval_if, eval_coalesce, eval_in,
    eval_binary_cell, eval_not_cell, eval_bound_cell, cell_term_wf, eval_arith, result_dt};
use crate::solution_mapping::{SolutionMappings, find_col, push_column, remove_column, clone_row};
use crate::terms::{RDFNodeType, BaseRDFNodeType, Term, LitValue, TermV, term_v, cell_v,
    term_wf, cell_fits, lit_value_fits, type_wf, type_clone_ok, xsd_boolean_iri,
    xsd_double_iri, xsd_boolean, xsd_double, is_integer_datatype, is_boolean_datatype,
    is_numeric_datatype, is_string_datatype, is_datetime_datatype, literal_is_integer,
    literal_is_boolean, literal_is_numeric, literal_is_string, literal_is_datetime};

verus! {

/// The names of a list of contexts.
pub open spec fn ctx_names(cs: Seq<Context>) -> Seq<Seq<char>> {
    cs.map_values(|c: Context| c@)
}

/// The output relation keeps exactly the columns of `sm` whose names are
/// not in `dropped`, with types, cells and row count unchanged.
pub open spec fn keeps_except(
    sm: SolutionMappings,
    out: SolutionMappings,
    dropped: Seq<Seq<char>>,
) -> bool {
    &&& out.wf()
    &&& out.height() == sm.height()
    &&& forall|n: Seq<char>| out.has_col(n) <==> (sm.has_col(n) && !dropped.contains(n))
    &&& forall|n: Seq<char>| #[trigger]
        out.has_col(n) ==> out.type_at(n) == sm.type_at(n)
    &&& forall|n: Seq<char>, i: int|
        #[trigger] out.has_col(n) && 0 <= i < sm.height() ==> #[trigger] out.cell_at(i, n)
            == sm.cell_at(i, n)
}

/// The output relation of one expression-compiler step: the columns of
/// `sm` without the dropped child contexts, plus one new column named
/// `added`; every kept column keeps its type, cells and row count.
pub open spec fn compiles_to(
    sm: SolutionMappings,
    out: SolutionMappings,
    dropped: Seq<Seq<char>>,
    added: Seq<char>,
) -> bool {
    &&& out.wf()
    &&& out.height() == sm.height()
    &&& forall|n: Seq<char>| #[trigger]
        out.has_col(n) <==> ((sm.has_col(n) && !dropped.contains(n)) || n == added)
    &&& forall|n: Seq<char>|
        sm.has_col(n) && !dropped.contains(n) && n != added ==> #[trigger] out.type_at(n)
            == sm.type_at(n)
    &&& forall|n: Seq<char>, i: int|
        sm.has_col(n) && !dropped.contains(n) && n != added && 0 <= i < sm.height()
            ==> #[trigger] out.cell_at(i, n) == sm.cell_at(i, n)
}

/// Removes the listed context columns (those that exist) from the
/// relation and from its type map: child results are dead once the parent
/// expression is computed.
pub fn drop_inner_contexts(sm: SolutionMappings, contexts: &Vec<Context>) -> (out:
    SolutionMappings)
    requires
        sm.wf(),
    ensures
        keeps_except(sm, out, ctx_names(contexts@)),
{
    let mut cur = sm;
    let mut k: usize = 0;
    while k < contexts.len()
        invariant
            0 <= k <= contexts@.len(),
            keeps_except(sm, cur, ctx_names(contexts@).take(k as int)),
        decreases contexts@.len() - k,
    {
        proof {
            assert(ctx_names(contexts@).take(k as int + 1) == ctx_names(contexts@).take(
                k as int,
            ).push(contexts@[k as int]@)) by {
                assert(ctx_names(contexts@).take(k as int + 1) =~= ctx_names(contexts@).take(
                    k as int,
                ).push(contexts@[k as int]@));
            }
        }
        match find_col(&cur, &contexts[k].name) {
            Option::Some(j) => {
                let ghost prev = cur;
                let ghost dropped_name = prev.name(j as int);
                cur = remove_column(cur, j);
                proof {
                    let d1 = ctx_names(contexts@).take(k as int + 1);
                    assert forall|n: Seq<char>| cur.has_col(n) <==> (sm.has_col(n)
                        && !d1.contains(n)) by {
                        if d1.contains(n) {
                            let w = choose|w: int| 0 <= w < d1.len() && d1[w] == n;
                            if w < k as int {
                                assert(ctx_names(contexts@).take(k as int).contains(n)) by {
                                    assert(ctx_names(contexts@).take(k as int)[w] == n);
                                }
                            } else {
                                assert(n == dropped_name);
                            }
                        } else {
                            assert(!ctx_names(contexts@).take(k as int).contains(n)) by {
                                if ctx_names(contexts@).take(k as int).contains(n) {
                                    let w = choose|w: int|
                                        0 <= w < k as int && ctx_names(contexts@).take(
                                            k as int,
                                        )[w] == n;
                                    assert(d1[w] == n);
                                }
                            }
                            assert(n != dropped_name) by {
                                assert(d1[k as int] == dropped_name);
                            }
                        }
                    }
                }
            },
            Option::None => {
                proof {
                    let d1 = ctx_names(contexts@).take(k as int + 1);
                    assert forall|n: Seq<char>| cur.has_col(n) <==> (sm.has_col(n)
                        && !d1.contains(n)) by {
                        if d1.contains(n) {
                            let w = choose|w: int| 0 <= w < d1.len() && d1[w] == n;
                            if w < k as int {
                                assert(ctx_names(contexts@).take(k as int)[w] == n);
                                assert(ctx_names(contexts@).take(k as int).contains(n));
                            } else {
                                assert(n == contexts@[k as int]@);
                                assert(!cur.has_col(n));
                            }
                        } else {
                            if ctx_names(contexts@).take(k as int).contains(n) {
                                let w = choose|w: int|
                                    0 <= w < k as int && ctx_names(contexts@).take(k as int)[w]
                                        == n;
                                assert(d1[w] == n);
                            }
                        }
                    }
                }
            },
        }
        k = k + 1;
    }
    proof {
        assert(ctx_names(contexts@).take(contexts@.len() as int) == ctx_names(contexts@));
    }
    cur
}

/// Compiles an IRI constant: appends a column holding the IRI on every
/// row, recorded with type `IRI`.
pub fn named_node(sm: SolutionMappings, nn: &NamedNode, context: &Context) -> (res: Result<
    SolutionMappings,
    QueryProcessingError,
>)
    requires
        sm.wf(),
        !sm.has_col(context@),
    ensures
        res matches Result::Ok(out) ==> {
            &&& compiles_to(sm, out, Seq::empty(), context@)
            &&& out.type_at(context@) == RDFNodeType::IRI
            &&& forall|i: int|
                0 <= i < sm.height() ==> cell_v(#[trigger] out.cell_at(i, context@))
                    == Option::Some(TermV::Iri(nn@))
        },
        res matches Result::Ok(_),
{
    let mut cells: Vec<Option<Term>> = Vec::new();
    let mut i: usize = 0;
    while i < sm.rows.len()
        invariant
            0 <= i <= sm.height(),
            cells@.len() == i,
            forall|k: int|
                0 <= k < i ==> cell_v(#[trigger] cells@[k]) == Option::Some(TermV::Iri(nn@))
                    && cell_fits(cells@[k], RDFNodeType::IRI),
        decreases sm.height() - i,
    {
        cells.push(Option::Some(Term::Iri(nn.iri.clone())));
        i = i + 1;
    }
    let name_s = String::from_str(context.as_str());
    let out = push_column(sm, name_s, RDFNodeType::IRI, cells);
    proof {
        assert(forall|n: Seq<char>| !Seq::<Seq<char>>::empty().contains(n));
        assert(compiles_to(sm, out, Seq::empty(), context@));
        assert forall|i: int| 0 <= i < sm.height() implies cell_v(
            #[trigger] out.cell_at(i, context@),
        ) == Option::Some(TermV::Iri(nn@)) by {
            assert(out.cell_at(i, name_s@) == cells@[i]);
        }
    }
    Result::Ok(out)
}

/// Compiles a literal constant: appends a column holding the typed value
/// on every row, recorded with the literal's datatype.
pub fn literal(sm: SolutionMappings, lit: &Literal, context: &Context) -> (res: Result<
    SolutionMappings,
    QueryProcessingError,
>)
    requires
        sm.wf(),
        !sm.has_col(context@),
        lit_value_fits(lit.datatype@, lit.value),
    ensures
        res matches Result::Ok(out) ==> {
            &&& compiles_to(sm, out, Seq::empty(), context@)
            &&& (out.type_at(context@) matches RDFNodeType::Literal(d) && d@ == lit.datatype@)
            &&& forall|i: int|
                0 <= i < sm.height() ==> cell_v(#[trigger] out.cell_at(i, context@))
                    == Option::Some(TermV::Lit(lit.datatype@, crate::terms::lit_v(lit.value)))
        },
        res matches Result::Ok(_),
{
    let mut cells: Vec<Option<Term>> = Vec::new();
    let ghost typ_spec = RDFNodeType::Literal(lit.datatype);
    let mut i: usize = 0;
    while i < sm.rows.len()
        invariant
            0 <= i <= sm.height(),
            cells@.len() == i,
            lit_value_fits(lit.datatype@, lit.value),
            typ_spec == RDFNodeType::Literal(lit.datatype),
            forall|k: int|
                0 <= k < i ==> cell_v(#[trigger] cells@[k]) == Option::Some(
                    TermV::Lit(lit.datatype@, crate::terms::lit_v(lit.value)),
                ) && cell_fits(cells@[k], typ_spec),
        decreases sm.height() - i,
    {
        let t = Term::Lit(lit.datatype.clone(), lit.value.clone());
        proof {
            assert(crate::terms::base_same(
                crate::terms::base_of(t),
                BaseRDFNodeType::Literal(lit.datatype),
            ));
        }
        cells.push(Option::Some(t));
        i = i + 1;
    }
    let typ = RDFNodeType::Literal(lit.datatype.clone());
    proof {
        assert(forall|c: Option<Term>| cell_fits(c, typ_spec) ==> cell_fits(c, typ));
    }
    let name_s = String::from_str(context.as_str());
    let out = push_column(sm, name_s, typ, cells);
    proof {
        assert(forall|n: Seq<char>| !Seq::<Seq<char>>::empty().contains(n));
        assert(compiles_to(sm, out, Seq::empty(), context@));
        assert(out.type_at(name_s@) == typ);
        assert forall|i: int| 0 <= i < sm.height() implies cell_v(
            #[trigger] out.cell_at(i, context@),
        ) == Option::Some(TermV::Lit(lit.datatype@, crate::terms::lit_v(lit.value))) by {
            assert(out.cell_at(i, name_s@) == cells@[i]);
        }
    }
    Result::Ok(out)
}

/// Compiles a variable reference: copies the variable's column under the
/// node's context identifier, with the variable's recorded type.  Fails
/// with `VariableNotFound` exactly when the variable is absent from the
/// type map.
pub fn variable(sm: SolutionMappings, v: &Variable, context: &Context) -> (res: Result<
    SolutionMappings,
    QueryProcessingError,
>)
    requires
        sm.wf(),
        !sm.has_col(context@),
    ensures
        (res matches Result::Ok(_)) <==> sm.has_col(v@),
        res matches Result::Err(e) ==> e matches QueryProcessingError::VariableNotFound(_, _),
        res matches Result::Ok(out) ==> {
            &&& compiles_to(sm, out, Seq::empty(), context@)
            &&& type_clone_ok(out.type_at(context@), sm.type_at(v@))
            &&& forall|i: int|
                0 <= i < sm.height() ==> #[trigger] out.cell_at(i, context@) == sm.cell_at(i, v@)
        },
{
    let j = match find_col(&sm, &v.name) {
        Option::Some(j) => j,
        Option::None => {
            return Result::Err(
                QueryProcessingError::VariableNotFound(
                    v.name.clone(),
                    String::from_str(context.as_str()),
                ),
            );
        },
    };
    proof {
        sm.lemma_col_index(v@);
    }
    let typ = sm.types[j].clone();
    proof {
        crate::terms::lemma_type_clone_wf(sm.types@[j as int], typ);
    }
    let mut cells: Vec<Option<Term>> = Vec::new();
    let mut i: usize = 0;
    while i < sm.rows.len()
        invariant
            0 <= i <= sm.height(),
            sm.wf(),
            0 <= j < sm.width(),
            type_clone_ok(typ, sm.types@[j as int]),
            type_wf(typ),
            cells@.len() == i,
            forall|k: int|
                0 <= k < i ==> #[trigger] cells@[k] == sm.cell(k, j as int) && cell_fits(
                    cells@[k],
                    typ,
                ),
        decreases sm.height() - i,
    {
        let c = crate::terms::clone_cell(&sm.rows[i][j]);
        proof {
            crate::terms::lemma_type_clone_fits(c, sm.types@[j as int], typ);
        }
        cells.push(c);
        i = i + 1;
    }
    let name_s = String::from_str(context.as_str());
    let out = push_column(sm, name_s, typ, cells);
    proof {
        assert(forall|n: Seq<char>| !Seq::<Seq<char>>::empty().contains(n));
        assert(compiles_to(sm, out, Seq::empty(), context@));
        assert(sm.col_index(v@) == j as int);
        assert(out.type_at(name_s@) == typ);
        assert forall|i: int| 0 <= i < sm.height() implies #[trigger] out.cell_at(i, context@)
            == sm.cell_at(i, v@) by {
            assert(out.cell_at(i, name_s@) == cells@[i]);
        }
    }
    Result::Ok(out)
}

/// An arithmetic operator.
pub open spec fn is_arith_op(op: Operator) -> bool {
    op == Operator::Plus || op == Operator::Minus || op == Operator::Multiply || op
        == Operator::Divide
}

/// The datatype of an arithmetic result whose left operand has literal
/// datatype `ldt`: promoted to double when dividing by an integer-family
/// operand, the left operand's datatype otherwise.
pub open spec fn binary_out_dt(op: Operator, ldt: Seq<char>, rt: RDFNodeType) -> Seq<char> {
    if op == Operator::Divide && (rt matches RDFNodeType::Literal(rdt) && is_integer_datatype(
        rdt@,
    )) {
        xsd_double_iri()
    } else {
        ldt
    }
}

/// The type-propagation rule for binary expressions: comparisons and
/// logical operators record boolean whatever the operand types; arithmetic
/// records the left operand's literal type, promoted to double for
/// division by an integer-family operand.
pub open spec fn binary_type_ok(
    op: Operator,
    lt: RDFNodeType,
    rt: RDFNodeType,
    ot: RDFNodeType,
) -> bool {
    if is_arith_op(op) {
        match lt {
            RDFNodeType::Literal(ldt) => ot matches RDFNodeType::Literal(d) && d@ == binary_out_dt(
                op,
                ldt@,
                rt,
            ),
            _ => type_clone_ok(ot, lt),
        }
    } else {
        ot matches RDFNodeType::Literal(d) && d@ == xsd_boolean_iri()
    }
}

/// The value rule for binary expressions: comparisons and logical
/// operators follow `eval_binary`; arithmetic over a left operand of
/// non-literal type is unbound on every row.
pub open spec fn binary_cell_ok(
    op: Operator,
    a: Option<TermV>,
    b: Option<TermV>,
    lt: RDFNodeType,
    rt: RDFNodeType,
    oc: Option<Term>,
) -> bool {
    if is_arith_op(op) {
        match lt {
            RDFNodeType::Literal(ldt) => cell_v(oc) == eval_arith(
                op,
                a,
                b,
                binary_out_dt(op, ldt@, rt),
            ),
            _ => oc matches Option::None,
        }
    } else {
        cell_v(oc) == eval_binary(op, a, b, xsd_boolean_iri())
    }
}

/// Compiles one binary expression over the columns of the two child
/// contexts, records the result type by the type-propagation table, and
/// drops both child columns.  Fails with `InternalInvariantViolation`
/// exactly when a child context column is missing.
pub fn binary_expression(
    sm: SolutionMappings,
    op: Operator,
    left_context: &Context,
    right_context: &Context,
    context: &Context,
) -> (res: Result<SolutionMappings, QueryProcessingError>)
    requires
        sm.wf(),
        !sm.has_col(context@),
    ensures
        (res matches Result::Ok(_)) <==> (sm.has_col(left_context@) && sm.has_col(
            right_context@,
        )),
        res matches Result::Err(e) ==> e matches
            QueryProcessingError::InternalInvariantViolation(_),
        res matches Result::Ok(out) ==> {
            &&& compiles_to(sm, out, seq![left_context@, right_context@], context@)
            &&& binary_type_ok(
                op,
                sm.type_at(left_context@),
                sm.type_at(right_context@),
                out.type_at(context@),
            )
            &&& forall|i: int|
                0 <= i < sm.height() ==> binary_cell_ok(
                    op,
                    cell_v(sm.cell_at(i, left_context@)),
                    cell_v(sm.cell_at(i, right_context@)),
                    sm.type_at(left_context@),
                    sm.type_at(right_context@),
                    #[trigger] out.cell_at(i, context@),
                )
        },
{
    let j1 = match find_col(&sm, &left_context.name) {
        Option::Some(j) => j,
        Option::None => {
            return Result::Err(
                QueryProcessingError::InternalInvariantViolation(
                    String::from_str("missing left operand column"),
                ),
            );
        },
    };
    let j2 = match find_col(&sm, &right_context.name) {
        Option::Some(j) => j,
        Option::None => {
            return Result::Err(
                QueryProcessingError::InternalInvariantViolation(
                    String::from_str("missing right operand column"),
                ),
            );
        },
    };
    proof {
        sm.lemma_col_index(left_context@);
        sm.lemma_col_index(right_context@);
    }
    let ghost lt = sm.types@[j1 as int];
    let ghost rt = sm.types@[j2 as int];
    let is_arith = matches!(op, Operator::Plus | Operator::Minus | Operator::Multiply
        | Operator::Divide);
    let mut non_literal_arith: bool = false;
    let out_dt: String;
    let typ: RDFNodeType;
    if !is_arith {
        out_dt = xsd_boolean();
        typ = RDFNodeType::Literal(xsd_boolean());
    } else {
        match &sm.types[j1] {
            RDFNodeType::Literal(ldt) => {
                let div_int: bool = if matches!(op, Operator::Divide) {
                    match &sm.types[j2] {
                        RDFNodeType::Literal(rdt) => literal_is_integer(rdt),
                        _ => false,
                    }
                } else {
                    false
                };
                if div_int {
                    out_dt = xsd_double();
                } else {
                    out_dt = ldt.clone();
                }
                typ = RDFNodeType::Literal(out_dt.clone());
                proof {
                    assert(out_dt@ == binary_out_dt(op, ldt@, rt));
                }
            },
            _ => {
                non_literal_arith = true;
                out_dt = xsd_boolean();
                typ = sm.types[j1].clone();
                proof {
                    crate::terms::lemma_type_clone_wf(lt, typ);
                }
            },
        }
    }
    let ghost typ_spec = typ;
    let mut cells: Vec<Option<Term>> = Vec::new();
    let mut i: usize = 0;
    while i < sm.rows.len()
        invariant
            0 <= i <= sm.height(),
            sm.wf(),
            0 <= j1 < sm.width(),
            0 <= j2 < sm.width(),
            lt == sm.types@[j1 as int],
            rt == sm.types@[j2 as int],
            typ == typ_spec,
            type_wf(typ_spec),
            is_arith == is_arith_op(op),
            non_literal_arith == (is_arith_op(op) && !(lt matches RDFNodeType::Literal(_))),
            !non_literal_arith && is_arith ==> (lt matches RDFNodeType::Literal(ldt) && out_dt@
                == binary_out_dt(op, ldt@, rt) && typ_spec == RDFNodeType::Literal(out_dt)),
            !is_arith ==> out_dt@ == xsd_boolean_iri() && (typ_spec matches RDFNodeType::Literal(d)
                && d@ == xsd_boolean_iri()),
            non_literal_arith ==> type_clone_ok(typ_spec, lt),
            cells@.len() == i,
            forall|k: int|
                0 <= k < i ==> binary_cell_ok(
                    op,
                    cell_v(sm.cell(k, j1 as int)),
                    cell_v(sm.cell(k, j2 as int)),
                    lt,
                    rt,
                    #[trigger] cells@[k],
                ) && cell_fits(cells@[k], typ_spec),
        decreases sm.height() - i,
    {
        if non_literal_arith {
            cells.push(Option::None);
        } else {
            proof {
                assert(cell_term_wf(sm.rows@[i as int]@[j1 as int]));
                assert(cell_term_wf(sm.rows@[i as int]@[j2 as int]));
            }
            let c = eval_binary_cell(op, &sm.rows[i][j1], &sm.rows[i][j2], &out_dt);
            proof {
                match &c {
                    Option::Some(t) => {
                        assert(term_wf(*t));
                        assert(crate::terms::base_same(
                            crate::terms::base_of(*t),
                            crate::terms::base_of_type(typ_spec),
                        ));
                    },
                    Option::None => {},
                }
            }
            cells.push(c);
        }
        i = i + 1;
    }
    let name_s = String::from_str(context.as_str());
    let mid = push_column(sm, name_s, typ, cells);
    let mut dropped: Vec<Context> = Vec::new();
    dropped.push(left_context.clone());
    dropped.push(right_context.clone());
    let out = drop_inner_contexts(mid, &dropped);
    proof {
        let ds = seq![left_context@, right_context@];
        assert(ctx_names(dropped@) =~= ds);
        assert forall|n: Seq<char>| #[trigger] ds.contains(n) implies (n == left_context@ || n
            == right_context@) by {
            let w = choose|w: int| 0 <= w < ds.len() && ds[w] == n;
        }
        assert(ds.contains(left_context@)) by {
            assert(ds[0] == left_context@);
        }
        assert(ds.contains(right_context@)) by {
            assert(ds[1] == right_context@);
        }
        assert(!ds.contains(context@));
        assert(out.has_col(context@));
        assert(out.type_at(context@) == mid.type_at(context@));
        assert(mid.type_at(name_s@) == typ_spec);
        assert(compiles_to(sm, out, ds, context@));
        assert(binary_type_ok(op, lt, rt, out.type_at(context@)));
        assert forall|i: int| 0 <= i < sm.height() implies binary_cell_ok(
            op,
            cell_v(sm.cell_at(i, left_context@)),
            cell_v(sm.cell_at(i, right_context@)),
            lt,
            rt,
            #[trigger] out.cell_at(i, context@),
        ) by {
            assert(mid.cell_at(i, name_s@) == cells@[i]);
            assert(out.cell_at(i, context@) == mid.cell_at(i, context@));
            assert(sm.cell_at(i, left_context@) == sm.cell(i, j1 as int));
            assert(sm.cell_at(i, right_context@) == sm.cell(i, j2 as int));
        }
    }
    Result::Ok(out)
}

/// Compiles unary plus: the operand column is copied unchanged under the
/// node's context, with the operand's type, and the child column is
/// dropped.
pub fn unary_plus(sm: SolutionMappings, plus_context: &Context, context: &Context) -> (res: Result<
    SolutionMappings,
    QueryProcessingError,
>)
    requires
        sm.wf(),
        !sm.has_col(context@),
    ensures
        (res matches Result::Ok(_)) <==> sm.has_col(plus_context@),
        res matches Result::Err(e) ==> e matches
            QueryProcessingError::InternalInvariantViolation(_),
        res matches Result::Ok(out) ==> {
            &&& compiles_to(sm, out, seq![plus_context@], context@)
            &&& type_clone_ok(out.type_at(context@), sm.type_at(plus_context@))
            &&& forall|i: int|
                0 <= i < sm.height() ==> #[trigger] out.cell_at(i, context@) == sm.cell_at(
                    i,
                    plus_context@,
                )
        },
{
    let j = match find_col(&sm, &plus_context.name) {
        Option::Some(j) => j,
        Option::None => {
            return Result::Err(
                QueryProcessingError::InternalInvariantViolation(
                    String::from_str("missing operand column"),
                ),
            );
        },
    };
    proof {
        sm.lemma_col_index(plus_context@);
    }
    let typ = sm.types[j].clone();
    proof {
        crate::terms::lemma_type_clone_wf(sm.types@[j as int], typ);
    }
    let mut cells: Vec<Option<Term>> = Vec::new();
    let mut i: usize = 0;
    while i < sm.rows.len()
        invariant
            0 <= i <= sm.height(),
            sm.wf(),
            0 <= j < sm.width(),
            type_clone_ok(typ, sm.types@[j as int]),
            type_wf(typ),
            cells@.len() == i,
            forall|k: int|
                0 <= k < i ==> #[trigger] cells@[k] == sm.cell(k, j as int) && cell_fits(
                    cells@[k],
                    typ,
                ),
        decreases sm.height() - i,
    {
        let c = crate::terms::clone_cell(&sm.rows[i][j]);
        proof {
            crate::terms::lemma_type_clone_fits(c, sm.types@[j as int], typ);
        }
        cells.push(c);
        i = i + 1;
    }
    let name_s = String::from_str(context.as_str());
    let mid = push_column(sm, name_s, typ, cells);
    let mut dropped: Vec<Context> = Vec::new();
    dropped.push(plus_context.clone());
    let out = drop_inner_contexts(mid, &dropped);
    proof {
        let ds = seq![plus_context@];
        assert(ctx_names(dropped@) =~= ds);
        assert forall|n: Seq<char>| #[trigger] ds.contains(n) implies n == plus_context@ by {
            let w = choose|w: int| 0 <= w < ds.len() && ds[w] == n;
        }
        assert(ds.contains(plus_context@)) by {
            assert(ds[0] == plus_context@);
        }
        assert(!ds.contains(context@));
        assert(sm.col_index(plus_context@) == j as int);
        assert(compiles_to(sm, out, ds, context@));
        assert(out.type_at(context@) == mid.type_at(name_s@));
        assert forall|i: int| 0 <= i < sm.height() implies #[trigger] out.cell_at(i, context@)
            == sm.cell_at(i, plus_context@) by {
            assert(mid.cell_at(i, name_s@) == cells@[i]);
            assert(out.cell_at(i, context@) == mid.cell_at(i, context@));
        }
    }
    Result::Ok(out)
}

/// The value rule for unary minus: the operand is subtracted from the
/// integer zero, within the operand's own recorded literal datatype; a
/// non-literal operand column is unbound on every row.
pub open spec fn minus_cell_ok(mt: RDFNodeType, a: Option<TermV>, oc: Option<Term>) -> bool {
    match mt {
        RDFNodeType::Literal(dt) => cell_v(oc) == eval_arith(
            Operator::Minus,
            Option::Some(TermV::Lit(crate::terms::xsd_integer_iri(), crate::terms::LitV::I(0))),
            a,
            dt@,
        ),
        _ => oc matches Option::None,
    }
}

/// Compiles unary minus as `0 - operand`, keeping the operand's recorded
/// type, and drops the child column.
pub fn unary_minus(sm: SolutionMappings, minus_context: &Context, context: &Context) -> (res:
    Result<SolutionMappings, QueryProcessingError>)
    requires
        sm.wf(),
        !sm.has_col(context@),
    ensures
        (res matches Result::Ok(_)) <==> sm.has_col(minus_context@),
        res matches Result::Err(e) ==> e matches
            QueryProcessingError::InternalInvariantViolation(_),
        res matches Result::Ok(out) ==> {
            &&& compiles_to(sm, out, seq![minus_context@], context@)
            &&& type_clone_ok(out.type_at(context@), sm.type_at(minus_context@))
            &&& forall|i: int|
                0 <= i < sm.height() ==> minus_cell_ok(
                    sm.type_at(minus_context@),
                    cell_v(sm.cell_at(i, minus_context@)),
                    #[trigger] out.cell_at(i, context@),
                )
        },
{
    let j = match find_col(&sm, &minus_context.name) {
        Option::Some(j) => j,
        Option::None => {
            return Result::Err(
                QueryProcessingError::InternalInvariantViolation(
                    String::from_str("missing operand column"),
                ),
            );
        },
    };
    proof {
        sm.lemma_col_index(minus_context@);
    }
    let ghost mt = sm.types@[j as int];
    let typ = sm.types[j].clone();
    proof {
        crate::terms::lemma_type_clone_wf(mt, typ);
    }
    let is_literal = matches!(&sm.types[j], RDFNodeType::Literal(_));
    let out_dt: String = match &sm.types[j] {
        RDFNodeType::Literal(dt) => dt.clone(),
        _ => xsd_boolean(),
    };
    let zero: Option<Term> = Option::Some(Term::Lit(crate::terms::xsd_integer(), LitValue::I(0)));
    let mut cells: Vec<Option<Term>> = Vec::new();
    let mut i: usize = 0;
    while i < sm.rows.len()
        invariant
            0 <= i <= sm.height(),
            sm.wf(),
            0 <= j < sm.width(),
            mt == sm.types@[j as int],
            type_clone_ok(typ, mt),
            type_wf(typ),
            is_literal == (mt matches RDFNodeType::Literal(_)),
            is_literal ==> (mt matches RDFNodeType::Literal(dt) && out_dt@ == dt@ && typ
                == RDFNodeType::Literal(out_dt)),
            cell_v(zero) == Option::Some(
                TermV::Lit(crate::terms::xsd_integer_iri(), crate::terms::LitV::I(0)),
            ),
            cell_term_wf(zero),
            cells@.len() == i,
            forall|k: int|
                0 <= k < i ==> minus_cell_ok(mt, cell_v(sm.cell(k, j as int)), #[trigger] cells@[k])
                    && cell_fits(cells@[k], typ),
        decreases sm.height() - i,
    {
        if is_literal {
            proof {
                assert(cell_term_wf(sm.rows@[i as int]@[j as int]));
            }
            let c = eval_binary_cell(Operator::Minus, &zero, &sm.rows[i][j], &out_dt);
            proof {
                match &c {
                    Option::Some(t) => {
                        assert(term_wf(*t));
                        assert(crate::terms::base_same(
                            crate::terms::base_of(*t),
                            crate::terms::base_of_type(typ),
                        ));
                    },
                    Option::None => {},
                }
            }
            cells.push(c);
        } else {
            cells.push(Option::None);
        }
        i = i + 1;
    }
    let name_s = String::from_str(context.as_str());
    let mid = push_column(sm, name_s, typ, cells);
    let mut dropped: Vec<Context> = Vec::new();
    dropped.push(minus_context.clone());
    let out = drop_inner_contexts(mid, &dropped);
    proof {
        let ds = seq![minus_context@];
        assert(ctx_names(dropped@) =~= ds);
        assert forall|n: Seq<char>| #[trigger] ds.contains(n) implies n == minus_context@ by {
            let w = choose|w: int| 0 <= w < ds.len() && ds[w] == n;
        }
        assert(ds.contains(minus_context@)) by {
            assert(ds[0] == minus_context@);
        }
        assert(!ds.contains(context@));
        assert(sm.col_index(minus_context@) == j as int);
        assert(compiles_to(sm, out, ds, context@));
        assert(out.type_at(context@) == mid.type_at(name_s@));
        assert forall|i: int| 0 <= i < sm.height() implies minus_cell_ok(
            sm.type_at(minus_context@),
            cell_v(sm.cell_at(i, minus_context@)),
            #[trigger] out.cell_at(i, context@),
        ) by {
            assert(mid.cell_at(i, name_s@) == cells@[i]);
            assert(out.cell_at(i, context@) == mid.cell_at(i, context@));
            assert(sm.cell_at(i, minus_context@) == sm.cell(i, j as int));
        }
    }
    Result::Ok(out)
}

/// Compiles logical negation: a boolean column under the node's context,
/// negating the child column row-wise; the child column is dropped.
pub fn not_expression(sm: SolutionMappings, not_context: &Context, context: &Context) -> (res:
    Result<SolutionMappings, QueryProcessingError>)
    requires
        sm.wf(),
        !sm.has_col(context@),
    ensures
        (res matches Result::Ok(_)) <==> sm.has_col(not_context@),
        res matches Result::Err(e) ==> e matches
            QueryProcessingError::InternalInvariantViolation(_),
        res matches Result::Ok(out) ==> {
            &&& compiles_to(sm, out, seq![not_context@], context@)
            &&& (out.type_at(context@) matches RDFNodeType::Literal(d) && d@ == xsd_boolean_iri())
            &&& forall|i: int|
                0 <= i < sm.height() ==> cell_v(#[trigger] out.cell_at(i, context@)) == eval_not(
                    cell_v(sm.cell_at(i, not_context@)),
                )
        },
{
    let j = match find_col(&sm, &not_context.name) {
        Option::Some(j) => j,
        Option::None => {
            return Result::Err(
                QueryProcessingError::InternalInvariantViolation(
                    String::from_str("missing operand column"),
                ),
            );
        },
    };
    proof {
        sm.lemma_col_index(not_context@);
    }
    let typ = RDFNodeType::Literal(xsd_boolean());
    let mut cells: Vec<Option<Term>> = Vec::new();
    let mut i: usize = 0;
    while i < sm.rows.len()
        invariant
            0 <= i <= sm.height(),
            sm.wf(),
            0 <= j < sm.width(),
            typ matches RDFNodeType::Literal(d) && d@ == xsd_boolean_iri(),
            cells@.len() == i,
            forall|k: int|
                0 <= k < i ==> cell_v(#[trigger] cells@[k]) == eval_not(
                    cell_v(sm.cell(k, j as int)),
                ) && cell_fits(cells@[k], typ),
        decreases sm.height() - i,
    {
        let c = eval_not_cell(&sm.rows[i][j]);
        proof {
            match &c {
                Option::Some(t) => {
                    assert(term_wf(*t));
                    assert(crate::terms::base_same(
                        crate::terms::base_of(*t),
                        crate::terms::base_of_type(typ),
                    ));
                },
                Option::None => {},
            }
        }
        cells.push(c);
        i = i + 1;
    }
    let name_s = String::from_str(context.as_str());
    let mid = push_column(sm, name_s, typ, cells);
    let mut dropped: Vec<Context> = Vec::new();
    dropped.push(not_context.clone());
    let out = drop_inner_contexts(mid, &dropped);
    proof {
        let ds = seq![not_context@];
        assert(ctx_names(dropped@) =~= ds);
        assert forall|n: Seq<char>| #[trigger] ds.contains(n) implies n == not_context@ by {
            let w = choose|w: int| 0 <= w < ds.len() && ds[w] == n;
        }
        assert(ds.contains(not_context@)) by {
            assert(ds[0] == not_context@);
        }
        assert(!ds.contains(context@));
        assert(sm.col_index(not_context@) == j as int);
        assert(compiles_to(sm, out, ds, context@));
        assert(out.type_at(context@) == mid.type_at(name_s@));
        assert forall|i: int| 0 <= i < sm.height() implies cell_v(
            #[trigger] out.cell_at(i, context@),
        ) == eval_not(cell_v(sm.cell_at(i, not_context@))) by {
            assert(mid.cell_at(i, name_s@) == cells@[i]);
            assert(out.cell_at(i, context@) == mid.cell_at(i, context@));
            assert(sm.cell_at(i, not_context@) == sm.cell(i, j as int));
        }
    }
    Result::Ok(out)
}

/// Compiles `BOUND(?v)`: a boolean column that is true on a row exactly
/// when the variable's cell is bound on that row.  `BOUND` has no child
/// context, so nothing is dropped.
pub fn bound(sm: SolutionMappings, v: &Variable, context: &Context) -> (res: Result<
    SolutionMappings,
    QueryProcessingError,
>)
    requires
        sm.wf(),
        !sm.has_col(context@),
    ensures
        (res matches Result::Ok(_)) <==> sm.has_col(v@),
        res matches Result::Err(e) ==> e matches QueryProcessingError::VariableNotFound(_, _),
        res matches Result::Ok(out) ==> {
            &&& compiles_to(sm, out, Seq::empty(), context@)
            &&& (out.type_at(context@) matches RDFNodeType::Literal(d) && d@ == xsd_boolean_iri())
            &&& forall|i: int|
                0 <= i < sm.height() ==> cell_v(#[trigger] out.cell_at(i, context@)) == eval_bound(
                    cell_v(sm.cell_at(i, v@)),
                )
        },
{
    let j = match find_col(&sm, &v.name) {
        Option::Some(j) => j,
        Option::None => {
            return Result::Err(
                QueryProcessingError::VariableNotFound(
                    v.name.clone(),
                    String::from_str(context.as_str()),
                ),
            );
        },
    };
    proof {
        sm.lemma_col_index(v@);
    }
    let typ = RDFNodeType::Literal(xsd_boolean());
    let mut cells: Vec<Option<Term>> = Vec::new();
    let mut i: usize = 0;
    while i < sm.rows.len()
        invariant
            0 <= i <= sm.height(),
            sm.wf(),
            0 <= j < sm.width(),
            typ matches RDFNodeType::Literal(d) && d@ == xsd_boolean_iri(),
            cells@.len() == i,
            forall|k: int|
                0 <= k < i ==> cell_v(#[trigger] cells@[k]) == eval_bound(
                    cell_v(sm.cell(k, j as int)),
                ) && cell_fits(cells@[k], typ),
        decreases sm.height() - i,
    {
        let c = eval_bound_cell(&sm.rows[i][j]);
        proof {
            match &c {
                Option::Some(t) => {
                    assert(term_wf(*t));
                    assert(crate::terms::base_same(
                        crate::terms::base_of(*t),
                        crate::terms::base_of_type(typ),
                    ));
                },
                Option::None => {},
            }
        }
        cells.push(c);
        i = i + 1;
    }
    let name_s = String::from_str(context.as_str());
    let out = push_column(sm, name_s, typ, cells);
    proof {
        assert(forall|n: Seq<char>| !Seq::<Seq<char>>::empty().contains(n));
        assert(compiles_to(sm, out, Seq::empty(), context@));
        assert(out.type_at(name_s@) == typ);
        assert forall|i: int| 0 <= i < sm.height() implies cell_v(
            #[trigger] out.cell_at(i, context@),
        ) == eval_bound(cell_v(sm.cell_at(i, v@))) by {
            assert(out.cell_at(i, name_s@) == cells@[i]);
            assert(sm.cell_at(i, v@) == sm.cell(i, sm.col_index(v@)));
        }
    }
    Result::Ok(out)
}

/// Compiles `IF(c, t, e)`: rows take the then- or else-branch value by
/// the condition; the recorded type is the then-branch's type (the
/// else-branch's type is not reconciled — a documented simplification),
/// and a row whose chosen value does not fit that type is unbound.  All
/// three child columns are dropped.
pub fn if_expression(
    sm: SolutionMappings,
    left_context: &Context,
    middle_context: &Context,
    right_context: &Context,
    context: &Context,
) -> (res: Result<SolutionMappings, QueryProcessingError>)
    requires
        sm.wf(),
        !sm.has_col(context@),
    ensures
        (res matches Result::Ok(_)) <==> (sm.has_col(left_context@) && sm.has_col(middle_context@)
            && sm.has_col(right_context@)),
        res matches Result::Err(e) ==> e matches
            QueryProcessingError::InternalInvariantViolation(_),
        res matches Result::Ok(out) ==> {
            &&& compiles_to(
                sm,
                out,
                seq![left_context@, middle_context@, right_context@],
                context@,
            )
            &&& type_clone_ok(out.type_at(context@), sm.type_at(middle_context@))
            &&& forall|i: int|
                0 <= i < sm.height() ==> cell_v(#[trigger] out.cell_at(i, context@))
                    == crate::terms::coerce_v(
                    crate::eval::eval_if(
                        cell_v(sm.cell_at(i, left_context@)),
                        cell_v(sm.cell_at(i, middle_context@)),
                        cell_v(sm.cell_at(i, right_context@)),
                    ),
                    sm.type_at(middle_context@),
                )
        },
{
    let jc = match find_col(&sm, &left_context.name) {
        Option::Some(j) => j,
        Option::None => {
            return Result::Err(
                QueryProcessingError::InternalInvariantViolation(
                    String::from_str("missing condition column"),
                ),
            );
        },
    };
    let jt = match find_col(&sm, &middle_context.name) {
        Option::Some(j) => j,
        Option::None => {
            return Result::Err(
                QueryProcessingError::InternalInvariantViolation(
                    String::from_str("missing then column"),
                ),
            );
        },
    };
    let je = match find_col(&sm, &right_context.name) {
        Option::Some(j) => j,
        Option::None => {
            return Result::Err(
                QueryProcessingError::InternalInvariantViolation(
                    String::from_str("missing else column"),
                ),
            );
        },
    };
    proof {
        sm.lemma_col_index(left_context@);
        sm.lemma_col_index(middle_context@);
        sm.lemma_col_index(right_context@);
    }
    let ghost mt = sm.types@[jt as int];
    let typ = sm.types[jt].clone();
    proof {
        crate::terms::lemma_type_clone_wf(mt, typ);
    }
    let mut cells: Vec<Option<Term>> = Vec::new();
    let mut i: usize = 0;
    while i < sm.rows.len()
        invariant
            0 <= i <= sm.height(),
            sm.wf(),
            0 <= jc < sm.width(),
            0 <= jt < sm.width(),
            0 <= je < sm.width(),
            mt == sm.types@[jt as int],
            type_clone_ok(typ, mt),
            type_wf(typ),
            cells@.len() == i,
            forall|k: int|
                0 <= k < i ==> cell_v(#[trigger] cells@[k]) == crate::terms::coerce_v(
                    crate::eval::eval_if(
                        cell_v(sm.cell(k, jc as int)),
                        cell_v(sm.cell(k, jt as int)),
                        cell_v(sm.cell(k, je as int)),
                    ),
                    mt,
                ) && cell_fits(cells@[k], typ),
        decreases sm.height() - i,
    {
        let raw = crate::eval::eval_if_cell(&sm.rows[i][jc], &sm.rows[i][jt], &sm.rows[i][je]);
        proof {
            match &raw {
                Option::Some(t) => {
                    crate::terms::lemma_cell_fits_v(*t, typ);
                    crate::terms::lemma_tv_in_type_clone(term_v(*t), mt, typ);
                },
                Option::None => {},
            }
        }
        let c: Option<Term> = if crate::solution_mapping::cell_fits_check(&raw, &typ) {
            raw
        } else {
            Option::None
        };
        cells.push(c);
        i = i + 1;
    }
    let name_s = String::from_str(context.as_str());
    let mid = push_column(sm, name_s, typ, cells);
    let mut dropped: Vec<Context> = Vec::new();
    dropped.push(left_context.clone());
    dropped.push(middle_context.clone());
    dropped.push(right_context.clone());
    let out = drop_inner_contexts(mid, &dropped);
    proof {
        let ds = seq![left_context@, middle_context@, right_context@];
        assert(ctx_names(dropped@) =~= ds);
        assert forall|n: Seq<char>| #[trigger] ds.contains(n) implies (n == left_context@ || n
            == middle_context@ || n == right_context@) by {
            let w = choose|w: int| 0 <= w < ds.len() && ds[w] == n;
        }
        assert(ds.contains(left_context@)) by {
            assert(ds[0] == left_context@);
        }
        assert(ds.contains(middle_context@)) by {
            assert(ds[1] == middle_context@);
        }
        assert(ds.contains(right_context@)) by {
            assert(ds[2] == right_context@);
        }
        assert(!ds.contains(context@));
        assert(compiles_to(sm, out, ds, context@));
        assert(out.type_at(context@) == mid.type_at(name_s@));
        assert forall|i: int| 0 <= i < sm.height() implies cell_v(
            #[trigger] out.cell_at(i, context@),
        ) == crate::terms::coerce_v(
            crate::eval::eval_if(
                cell_v(sm.cell_at(i, left_context@)),
                cell_v(sm.cell_at(i, middle_context@)),
                cell_v(sm.cell_at(i, right_context@)),
            ),
            sm.type_at(middle_context@),
        ) by {
            assert(mid.cell_at(i, name_s@) == cells@[i]);
            assert(out.cell_at(i, context@) == mid.cell_at(i, context@));
            assert(sm.cell_at(i, left_context@) == sm.cell(i, jc as int));
            assert(sm.cell_at(i, middle_context@) == sm.cell(i, jt as int));
            assert(sm.cell_at(i, right_context@) == sm.cell(i, je as int));
        }
    }
    Result::Ok(out)
}

/// Compiles `COALESCE(e1, ..., ek)`: each row takes the first bound
/// argument cell; the recorded type is the first argument's type (not a
/// union of all argument types — a documented simplification), and a row
/// whose chosen value does not fit that type is unbound.  All child
/// columns are dropped.
pub fn coalesce_expression(
    sm: SolutionMappings,
    inner_contexts: Vec<Context>,
    context: &Context,
) -> (res: Result<SolutionMappings, QueryProcessingError>)
    requires
        sm.wf(),
        !sm.has_col(context@),
        inner_contexts@.len() > 0,
    ensures
        (res matches Result::Ok(_)) <==> (forall|k: int|
            0 <= k < inner_contexts@.len() ==> sm.has_col(#[trigger] inner_contexts@[k]@)),
        res matches Result::Err(e) ==> e matches
            QueryProcessingError::InternalInvariantViolation(_),
        res matches Result::Ok(out) ==> {
            &&& compiles_to(sm, out, ctx_names(inner_contexts@), context@)
            &&& type_clone_ok(out.type_at(context@), sm.type_at(inner_contexts@[0]@))
            &&& forall|i: int|
                0 <= i < sm.height() ==> cell_v(#[trigger] out.cell_at(i, context@))
                    == crate::terms::coerce_v(
                    crate::eval::eval_coalesce(
                        Seq::new(
                            inner_contexts@.len(),
                            |k: int| cell_v(sm.cell_at(i, inner_contexts@[k]@)),
                        ),
                    ),
                    sm.type_at(inner_contexts@[0]@),
                )
        },
{
    // locate every argument column first
    let mut idxs: Vec<usize> = Vec::new();
    let mut k: usize = 0;
    while k < inner_contexts.len()
        invariant
            0 <= k <= inner_contexts@.len(),
            idxs@.len() == k,
            forall|w: int|
                0 <= w < k ==> 0 <= #[trigger] idxs@[w] < sm.width() && sm.name(idxs@[w] as int)
                    == inner_contexts@[w]@,
        decreases inner_contexts@.len() - k,
    {
        match find_col(&sm, &inner_contexts[k].name) {
            Option::Some(j) => {
                idxs.push(j);
            },
            Option::None => {
                proof {
                    assert(!sm.has_col(inner_contexts@[k as int]@));
                }
                return Result::Err(
                    QueryProcessingError::InternalInvariantViolation(
                        String::from_str("missing argument column"),
                    ),
                );
            },
        }
        k = k + 1;
    }
    proof {
        assert forall|w: int| 0 <= w < inner_contexts@.len() implies sm.has_col(
            #[trigger] inner_contexts@[w]@,
        ) by {
            assert(sm.name(idxs@[w] as int) == inner_contexts@[w]@);
        }
        assert forall|w: int| 0 <= w < inner_contexts@.len() implies sm.col_index(
            #[trigger] inner_contexts@[w]@,
        ) == idxs@[w] as int by {
            sm.lemma_col_index(inner_contexts@[w]@);
        }
    }
    let ghost ft = sm.types@[idxs@[0] as int];
    let typ = sm.types[idxs[0]].clone();
    proof {
        crate::terms::lemma_type_clone_wf(ft, typ);
    }
    let mut cells: Vec<Option<Term>> = Vec::new();
    let mut i: usize = 0;
    while i < sm.rows.len()
        invariant
            0 <= i <= sm.height(),
            sm.wf(),
            inner_contexts@.len() > 0,
            idxs@.len() == inner_contexts@.len(),
            forall|w: int|
                0 <= w < idxs@.len() ==> 0 <= #[trigger] idxs@[w] < sm.width() && sm.name(
                    idxs@[w] as int,
                ) == inner_contexts@[w]@,
            ft == sm.types@[idxs@[0] as int],
            type_clone_ok(typ, ft),
            type_wf(typ),
            cells@.len() == i,
            forall|k2: int|
                0 <= k2 < i ==> cell_v(#[trigger] cells@[k2]) == crate::terms::coerce_v(
                    crate::eval::eval_coalesce(
                        Seq::new(idxs@.len() as nat, |w: int| cell_v(sm.cell(k2, idxs@[w] as int))),
                    ),
                    ft,
                ) && cell_fits(cells@[k2], typ),
        decreases sm.height() - i,
    {
        let ghost args = Seq::new(idxs@.len() as nat, |w: int| cell_v(sm.cell(i as int, idxs@[w] as int)));
        let mut acc: Option<Term> = Option::None;
        let mut w: usize = 0;
        while w < idxs.len()
            invariant
                0 <= w <= idxs@.len(),
                sm.wf(),
                0 <= i < sm.height(),
                forall|w2: int| 0 <= w2 < idxs@.len() ==> 0 <= #[trigger] idxs@[w2] < sm.width(),
                args == Seq::new(
                    idxs@.len() as nat,
                    |w2: int| cell_v(sm.cell(i as int, idxs@[w2] as int)),
                ),
                cell_v(acc) == crate::eval::eval_coalesce(args.take(w as int)),
                acc matches Option::Some(t) ==> exists|w2: int|
                    0 <= w2 < w && acc == sm.cell(i as int, idxs@[w2] as int),
            decreases idxs@.len() - w,
        {
            proof {
                crate::eval::lemma_coalesce_push(args.take(w as int), args[w as int]);
                assert(args.take(w as int + 1) =~= args.take(w as int).push(args[w as int]));
            }
            if matches!(&acc, Option::None) {
                let c2 = crate::terms::clone_cell(&sm.rows[i][idxs[w]]);
                proof {
                    if c2 matches Option::Some(_) {
                        assert(c2 == sm.cell(i as int, idxs@[w as int] as int));
                    }
                }
                acc = c2;
            }
            w = w + 1;
        }
        proof {
            assert(args.take(idxs@.len() as int) =~= args);
        }
        proof {
            match &acc {
                Option::Some(t) => {
                    crate::terms::lemma_cell_fits_v(*t, typ);
                    crate::terms::lemma_tv_in_type_clone(term_v(*t), ft, typ);
                },
                Option::None => {},
            }
        }
        let c: Option<Term> = if crate::solution_mapping::cell_fits_check(&acc, &typ) {
            acc
        } else {
            Option::None
        };
        cells.push(c);
        i = i + 1;
    }
    let name_s = String::from_str(context.as_str());
    let mid = push_column(sm, name_s, typ, cells);
    let out = drop_inner_contexts(mid, &inner_contexts);
    proof {
        let ds = ctx_names(inner_contexts@);
        assert(!ds.contains(context@)) by {
            if ds.contains(context@) {
                let w = choose|w: int| 0 <= w < ds.len() && ds[w] == context@;
                assert(sm.has_col(inner_contexts@[w]@));
            }
        }
        assert(ds.contains(inner_contexts@[0]@)) by {
            assert(ds[0] == inner_contexts@[0]@);
        }
        assert(compiles_to(sm, out, ds, context@));
        assert(out.type_at(context@) == mid.type_at(name_s@));
        assert forall|i: int| 0 <= i < sm.height() implies cell_v(
            #[trigger] out.cell_at(i, context@),
        ) == crate::terms::coerce_v(
            crate::eval::eval_coalesce(
                Seq::new(
                    inner_contexts@.len(),
                    |k2: int| cell_v(sm.cell_at(i, inner_contexts@[k2]@)),
                ),
            ),
            sm.type_at(inner_contexts@[0]@),
        ) by {
            assert(mid.cell_at(i, name_s@) == cells@[i]);
            assert(out.cell_at(i, context@) == mid.cell_at(i, context@));
            assert(Seq::new(idxs@.len() as nat, |w: int| cell_v(sm.cell(i, idxs@[w] as int)))
                =~= Seq::new(
                inner_contexts@.len(),
                |k2: int| cell_v(sm.cell_at(i, inner_contexts@[k2]@)),
            ));
        }
    }
    Result::Ok(out)
}

/// Compiles `IN`: a boolean column built as a left fold of disjunctions
/// of equality tests of the left child against each candidate, starting
/// from false; with no candidates every row is false, whatever the left
/// value.  The left child column and all candidate columns are dropped.
pub fn in_expression(
    sm: SolutionMappings,
    left_context: &Context,
    right_contexts: &Vec<Context>,
    context: &Context,
) -> (res: Result<SolutionMappings, QueryProcessingError>)
    requires
        sm.wf(),
        !sm.has_col(context@),
    ensures
        (res matches Result::Ok(_)) <==> (sm.has_col(left_context@) && forall|k: int|
            0 <= k < right_contexts@.len() ==> sm.has_col(#[trigger] right_contexts@[k]@)),
        res matches Result::Err(e) ==> e matches
            QueryProcessingError::InternalInvariantViolation(_),
        res matches Result::Ok(out) ==> {
            &&& compiles_to(sm, out, ctx_names(right_contexts@).push(left_context@), context@)
            &&& (out.type_at(context@) matches RDFNodeType::Literal(d) && d@ == xsd_boolean_iri())
            &&& forall|i: int|
                0 <= i < sm.height() ==> cell_v(#[trigger] out.cell_at(i, context@)) == eval_in(
                    cell_v(sm.cell_at(i, left_context@)),
                    Seq::new(
                        right_contexts@.len(),
                        |k: int| cell_v(sm.cell_at(i, right_contexts@[k]@)),
                    ),
                )
            &&& (right_contexts@.len() == 0 ==> forall|i: int|
                0 <= i < sm.height() ==> cell_v(#[trigger] out.cell_at(i, context@))
                    == crate::eval::lit_bool_v(false))
        },
{
    let jl = match find_col(&sm, &left_context.name) {
        Option::Some(j) => j,
        Option::None => {
            return Result::Err(
                QueryProcessingError::InternalInvariantViolation(
                    String::from_str("missing left operand column"),
                ),
            );
        },
    };
    let mut idxs: Vec<usize> = Vec::new();
    let mut k: usize = 0;
    while k < right_contexts.len()
        invariant
            0 <= k <= right_contexts@.len(),
            idxs@.len() == k,
            forall|w: int|
                0 <= w < k ==> 0 <= #[trigger] idxs@[w] < sm.width() && sm.name(idxs@[w] as int)
                    == right_contexts@[w]@,
        decreases right_contexts@.len() - k,
    {
        match find_col(&sm, &right_contexts[k].name) {
            Option::Some(j) => {
                idxs.push(j);
            },
            Option::None => {
                proof {
                    assert(!sm.has_col(right_contexts@[k as int]@));
                }
                return Result::Err(
                    QueryProcessingError::InternalInvariantViolation(
                        String::from_str("missing candidate column"),
                    ),
                );
            },
        }
        k = k + 1;
    }
    proof {
        sm.lemma_col_index(left_context@);
        assert forall|w: int| 0 <= w < right_contexts@.len() implies sm.has_col(
            #[trigger] right_contexts@[w]@,
        ) by {
            assert(sm.name(idxs@[w] as int) == right_contexts@[w]@);
        }
    }
    let typ = RDFNodeType::Literal(xsd_boolean());
    let bool_dt = xsd_boolean();
    let mut cells: Vec<Option<Term>> = Vec::new();
    let mut i: usize = 0;
    while i < sm.rows.len()
        invariant
            0 <= i <= sm.height(),
            sm.wf(),
            0 <= jl < sm.width(),
            idxs@.len() == right_contexts@.len(),
            forall|w: int|
                0 <= w < idxs@.len() ==> 0 <= #[trigger] idxs@[w] < sm.width() && sm.name(
                    idxs@[w] as int,
                ) == right_contexts@[w]@,
            typ matches RDFNodeType::Literal(d) && d@ == xsd_boolean_iri(),
            bool_dt@ == xsd_boolean_iri(),
            cells@.len() == i,
            forall|k2: int|
                0 <= k2 < i ==> cell_v(#[trigger] cells@[k2]) == eval_in(
                    cell_v(sm.cell(k2, jl as int)),
                    Seq::new(idxs@.len() as nat, |w: int| cell_v(sm.cell(k2, idxs@[w] as int))),
                ) && cell_fits(cells@[k2], typ),
        decreases sm.height() - i,
    {
        let ghost args = Seq::new(
            idxs@.len() as nat,
            |w: int| cell_v(sm.cell(i as int, idxs@[w] as int)),
        );
        let mut acc: Option<Term> = Option::Some(crate::eval::bool_term(false));
        let mut w: usize = 0;
        while w < idxs.len()
            invariant
                0 <= w <= idxs@.len(),
                sm.wf(),
                0 <= i < sm.height(),
                0 <= jl < sm.width(),
                bool_dt@ == xsd_boolean_iri(),
                forall|w2: int| 0 <= w2 < idxs@.len() ==> 0 <= #[trigger] idxs@[w2] < sm.width(),
                args == Seq::new(
                    idxs@.len() as nat,
                    |w2: int| cell_v(sm.cell(i as int, idxs@[w2] as int)),
                ),
                cell_v(acc) == eval_in(cell_v(sm.cell(i as int, jl as int)), args.take(w as int)),
                cell_term_wf(acc),
            decreases idxs@.len() - w,
        {
            proof {
                assert(cell_term_wf(sm.rows@[i as int]@[jl as int]));
                assert(cell_term_wf(sm.rows@[i as int]@[idxs@[w as int] as int]));
            }
            let e = eval_binary_cell(Operator::Eq, &sm.rows[i][jl], &sm.rows[i][idxs[w]], &bool_dt);
            proof {
                match &e {
                    Option::Some(t) => {
                        assert(term_wf(*t));
                    },
                    Option::None => {},
                }
            }
            let acc2 = eval_binary_cell(Operator::Or, &acc, &e, &bool_dt);
            proof {
                match &acc2 {
                    Option::Some(t) => {
                        assert(term_wf(*t));
                    },
                    Option::None => {},
                }
                assert(args.take(w as int + 1).drop_last() =~= args.take(w as int));
                assert(args.take(w as int + 1).last() == args[w as int]);
            }
            acc = acc2;
            w = w + 1;
        }
        proof {
            assert(args.take(idxs@.len() as int) =~= args);
            match &acc {
                Option::Some(t) => {
                    assert(term_wf(*t));
                    assert(cell_v(acc) == eval_in(cell_v(sm.cell(i as int, jl as int)), args));
                    assert(crate::terms::base_same(
                        crate::terms::base_of(*t),
                        crate::terms::base_of_type(typ),
                    )) by {
                        crate::eval::lemma_eval_in_boolean(
                            cell_v(sm.cell(i as int, jl as int)),
                            args,
                        );
                    }
                },
                Option::None => {},
            }
        }
        cells.push(acc);
        i = i + 1;
    }
    let name_s = String::from_str(context.as_str());
    let mid = push_column(sm, name_s, typ, cells);
    let mut dropped: Vec<Context> = Vec::new();
    let mut k2: usize = 0;
    while k2 < right_contexts.len()
        invariant
            0 <= k2 <= right_contexts@.len(),
            dropped@.len() == k2,
            forall|w: int| 0 <= w < k2 ==> #[trigger] dropped@[w]@ == right_contexts@[w]@,
        decreases right_contexts@.len() - k2,
    {
        dropped.push(right_contexts[k2].clone());
        k2 = k2 + 1;
    }
    dropped.push(left_context.clone());
    let out = drop_inner_contexts(mid, &dropped);
    proof {
        let ds = ctx_names(right_contexts@).push(left_context@);
        assert(ctx_names(dropped@) =~= ds);
        assert(!ds.contains(context@)) by {
            if ds.contains(context@) {
                let w = choose|w: int| 0 <= w < ds.len() && ds[w] == context@;
                if w < right_contexts@.len() {
                    assert(sm.has_col(right_contexts@[w]@));
                }
            }
        }
        assert(ds.contains(left_context@)) by {
            assert(ds[right_contexts@.len() as int] == left_context@);
        }
        assert(compiles_to(sm, out, ds, context@));
        assert(out.type_at(context@) == mid.type_at(name_s@));
        assert forall|i: int| 0 <= i < sm.height() implies cell_v(
            #[trigger] out.cell_at(i, context@),
        ) == eval_in(
            cell_v(sm.cell_at(i, left_context@)),
            Seq::new(right_contexts@.len(), |k3: int| cell_v(sm.cell_at(i, right_contexts@[k3]@))),
        ) by {
            assert(mid.cell_at(i, name_s@) == cells@[i]);
            assert(out.cell_at(i, context@) == mid.cell_at(i, context@));
            assert(sm.cell_at(i, left_context@) == sm.cell(i, jl as int));
            assert(Seq::new(idxs@.len() as nat, |w: int| cell_v(sm.cell(i, idxs@[w] as int)))
                =~= Seq::new(
                right_contexts@.len(),
                |k3: int| cell_v(sm.cell_at(i, right_contexts@[k3]@)),
            )) by {
                assert forall|w: int| 0 <= w < right_contexts@.len() implies sm.cell(
                    i,
                    idxs@[w] as int,
                ) == sm.cell_at(i, right_contexts@[w]@) by {
                    sm.lemma_col_index(right_contexts@[w]@);
                }
            }
        }
    }
    Result::Ok(out)
}

/// Compiles `EXISTS`: for each outer row, a boolean that is true exactly
/// when some row of the inner probe relation carries an equal value in
/// the shared key column named by the exists context.  Membership is
/// set-like: how often a value occurs on the inner side never matters.
/// The key column is dropped from the outer relation afterwards.
pub fn exists_expression(
    sm: SolutionMappings,
    exists_sm: SolutionMappings,
    exists_context: &Context,
    context: &Context,
) -> (res: Result<SolutionMappings, QueryProcessingError>)
    requires
        sm.wf(),
        exists_sm.wf(),
        !sm.has_col(context@),
    ensures
        (res matches Result::Ok(_)) <==> (sm.has_col(exists_context@) && exists_sm.has_col(
            exists_context@,
        )),
        res matches Result::Err(e) ==> e matches
            QueryProcessingError::InternalInvariantViolation(_),
        res matches Result::Ok(out) ==> {
            &&& compiles_to(sm, out, seq![exists_context@], context@)
            &&& (out.type_at(context@) matches RDFNodeType::Literal(d) && d@ == xsd_boolean_iri())
            &&& forall|i: int|
                0 <= i < sm.height() ==> cell_v(#[trigger] out.cell_at(i, context@))
                    == crate::eval::lit_bool_v(
                    exists|j: int|
                        0 <= j < exists_sm.height() && crate::terms::cell_same(
                            sm.cell_at(i, exists_context@),
                            exists_sm.cell_at(j, exists_context@),
                        ),
                )
        },
{
    let jo = match find_col(&sm, &exists_context.name) {
        Option::Some(j) => j,
        Option::None => {
            return Result::Err(
                QueryProcessingError::InternalInvariantViolation(
                    String::from_str("missing key column in outer relation"),
                ),
            );
        },
    };
    let jp = match find_col(&exists_sm, &exists_context.name) {
        Option::Some(j) => j,
        Option::None => {
            return Result::Err(
                QueryProcessingError::InternalInvariantViolation(
                    String::from_str("missing key column in probe relation"),
                ),
            );
        },
    };
    proof {
        sm.lemma_col_index(exists_context@);
        exists_sm.lemma_col_index(exists_context@);
    }
    let typ = RDFNodeType::Literal(xsd_boolean());
    let mut cells: Vec<Option<Term>> = Vec::new();
    let mut i: usize = 0;
    while i < sm.rows.len()
        invariant
            0 <= i <= sm.height(),
            sm.wf(),
            exists_sm.wf(),
            0 <= jo < sm.width(),
            0 <= jp < exists_sm.width(),
            typ matches RDFNodeType::Literal(d) && d@ == xsd_boolean_iri(),
            cells@.len() == i,
            forall|k: int|
                0 <= k < i ==> cell_v(#[trigger] cells@[k]) == crate::eval::lit_bool_v(
                    exists|j: int|
                        0 <= j < exists_sm.height() && crate::terms::cell_same(
                            sm.cell(k, jo as int),
                            exists_sm.cell(j, jp as int),
                        ),
                ) && cell_fits(cells@[k], typ),
        decreases sm.height() - i,
    {
        let mut found: bool = false;
        let mut j: usize = 0;
        while j < exists_sm.rows.len()
            invariant
                0 <= j <= exists_sm.height(),
                sm.wf(),
                exists_sm.wf(),
                0 <= i < sm.height(),
                0 <= jo < sm.width(),
                0 <= jp < exists_sm.width(),
                found == exists|j2: int|
                    0 <= j2 < j && crate::terms::cell_same(
                        sm.cell(i as int, jo as int),
                        exists_sm.cell(j2, jp as int),
                    ),
            decreases exists_sm.height() - j,
        {
            if !found {
                if crate::terms::cell_eq(&sm.rows[i][jo], &exists_sm.rows[j][jp]) {
                    found = true;
                    proof {
                        assert(crate::terms::cell_same(
                            sm.cell(i as int, jo as int),
                            exists_sm.cell(j as int, jp as int),
                        ));
                    }
                }
            } else {
                proof {
                    let j2 = choose|j2: int|
                        0 <= j2 < j && crate::terms::cell_same(
                            sm.cell(i as int, jo as int),
                            exists_sm.cell(j2, jp as int),
                        );
                    assert(0 <= j2 < j as int + 1 && crate::terms::cell_same(
                        sm.cell(i as int, jo as int),
                        exists_sm.cell(j2, jp as int),
                    ));
                }
            }
            j = j + 1;
        }
        let c = Option::Some(crate::eval::bool_term(found));
        proof {
            match &c {
                Option::Some(t) => {
                    assert(term_wf(*t));
                    assert(crate::terms::base_same(
                        crate::terms::base_of(*t),
                        crate::terms::base_of_type(typ),
                    ));
                },
                Option::None => {},
            }
        }
        cells.push(c);
        i = i + 1;
    }
    let name_s = String::from_str(context.as_str());
    let mid = push_column(sm, name_s, typ, cells);
    let mut dropped: Vec<Context> = Vec::new();
    dropped.push(exists_context.clone());
    let out = drop_inner_contexts(mid, &dropped);
    proof {
        let ds = seq![exists_context@];
        assert(ctx_names(dropped@) =~= ds);
        assert forall|n: Seq<char>| #[trigger] ds.contains(n) implies n == exists_context@ by {
            let w = choose|w: int| 0 <= w < ds.len() && ds[w] == n;
        }
        assert(ds.contains(exists_context@)) by {
            assert(ds[0] == exists_context@);
        }
        assert(!ds.contains(context@));
        assert(compiles_to(sm, out, ds, context@));
        assert(out.type_at(context@) == mid.type_at(name_s@));
        assert forall|i: int| 0 <= i < sm.height() implies cell_v(
            #[trigger] out.cell_at(i, context@),
        ) == crate::eval::lit_bool_v(
            exists|j: int|
                0 <= j < exists_sm.height() && crate::terms::cell_same(
                    sm.cell_at(i, exists_context@),
                    exists_sm.cell_at(j, exists_context@),
                ),
        ) by {
            assert(mid.cell_at(i, name_s@) == cells@[i]);
            assert(out.cell_at(i, context@) == mid.cell_at(i, context@));
            assert(sm.cell_at(i, exists_context@) == sm.cell(i, jo as int));
            assert(exists_sm.col_index(exists_context@) == jp as int);
            let p = exists|j: int|
                0 <= j < exists_sm.height() && crate::terms::cell_same(
                    sm.cell(i, jo as int),
                    exists_sm.cell(j, jp as int),
                );
            let q = exists|j: int|
                0 <= j < exists_sm.height() && crate::terms::cell_same(
                    sm.cell_at(i, exists_context@),
                    exists_sm.cell_at(j, exists_context@),
                );
            if p {
                let j = choose|j: int|
                    0 <= j < exists_sm.height() && crate::terms::cell_same(
                        sm.cell(i, jo as int),
                        exists_sm.cell(j, jp as int),
                    );
                assert(exists_sm.cell_at(j, exists_context@) == exists_sm.cell(j, jp as int));
                assert(q);
            }
            if q {
                let j = choose|j: int|
                    0 <= j < exists_sm.height() && crate::terms::cell_same(
                        sm.cell_at(i, exists_context@),
                        exists_sm.cell_at(j, exists_context@),
                    );
                assert(exists_sm.cell_at(j, exists_context@) == exists_sm.cell(j, jp as int));
                assert(p);
            }
            assert(p == q);
        }
    }
    Result::Ok(out)
}

/// `EXISTS` membership never depends on how often a value occurs on the
/// inner side: duplicating any row of the probe leaves every outer
/// row's membership unchanged.
pub proof fn lemma_exists_ignores_multiplicity(
    c: Option<Term>,
    probe: Seq<Option<Term>>,
    j0: int,
)
    requires
        0 <= j0 < probe.len(),
    ensures
        (exists|j: int|
            0 <= j < probe.push(probe[j0]).len() && crate::terms::cell_same(
                c,
                #[trigger] probe.push(probe[j0])[j],
            )) <==> (exists|j: int|
            0 <= j < probe.len() && crate::terms::cell_same(c, #[trigger] probe[j])),
{
    let extended = probe.push(probe[j0]);
    if exists|j: int| 0 <= j < extended.len() && crate::terms::cell_same(c, #[trigger] extended[j]) {
        let j = choose|j: int|
            0 <= j < extended.len() && crate::terms::cell_same(c, #[trigger] extended[j]);
        if j < probe.len() {
            assert(extended[j] == probe[j]);
        } else {
            assert(extended[j] == probe[j0]);
        }
    }
    if exists|j: int| 0 <= j < probe.len() && crate::terms::cell_same(c, #[trigger] probe[j]) {
        let j = choose|j: int|
            0 <= j < probe.len() && crate::terms::cell_same(c, #[trigger] probe[j]);
        assert(extended[j] == probe[j]);
    }
}

/// Whether an operation is defined on operands of the two literal
/// datatypes: comparisons ask for a shared family among numeric, boolean,
/// string and datetime; conjunction and disjunction for booleans;
/// arithmetic for numerics.
pub open spec fn compatible_spec(e: Expression, d1: Seq<char>, d2: Seq<char>) -> bool {
    match e {
        Expression::Equal
        | Expression::LessOrEqual
        | Expression::GreaterOrEqual
        | Expression::Greater
        | Expression::Less => {
            ||| (is_numeric_datatype(d1) && is_numeric_datatype(d2))
            ||| (is_boolean_datatype(d1) && is_boolean_datatype(d2))
            ||| (is_string_datatype(d1) && is_string_datatype(d2))
            ||| (is_datetime_datatype(d1) && is_datetime_datatype(d2))
        },
        Expression::Or | Expression::And => is_boolean_datatype(d1) && is_boolean_datatype(d2),
        Expression::Add | Expression::Subtract | Expression::Multiply | Expression::Divide => {
            is_numeric_datatype(d1) && is_numeric_datatype(d2)
        },
        _ => false,
    }
}

/// Decides whether an operation is defined on operands of the two
/// literal datatypes.  Fails with `UnsupportedExpression` exactly on
/// expression kinds outside the comparison, logical and arithmetic
/// operators.
pub fn compatible_operation(expression: Expression, l1: &NamedNode, l2: &NamedNode) -> (res:
    Result<bool, QueryProcessingError>)
    ensures
        (res matches Result::Ok(_)) <==> !(expression matches Expression::Literal(_) || expression
            matches Expression::Other(_)),
        res matches Result::Err(e) ==> e matches QueryProcessingError::UnsupportedExpression(_),
        res matches Result::Ok(b) ==> b == compatible_spec(expression, l1@, l2@),
{
    match expression {
        Expression::Equal
        | Expression::LessOrEqual
        | Expression::GreaterOrEqual
        | Expression::Greater
        | Expression::Less => {
            Result::Ok(
                (literal_is_numeric(&l1.iri) && literal_is_numeric(&l2.iri)) || (literal_is_boolean(
                    &l1.iri,
                ) && literal_is_boolean(&l2.iri)) || (literal_is_string(&l1.iri)
                    && literal_is_string(&l2.iri)) || (literal_is_datetime(&l1.iri)
                    && literal_is_datetime(&l2.iri)),
            )
        },
        Expression::Or | Expression::And => {
            Result::Ok(literal_is_boolean(&l1.iri) && literal_is_boolean(&l2.iri))
        },
        Expression::Add | Expression::Subtract | Expression::Multiply | Expression::Divide => {
            Result::Ok(literal_is_numeric(&l1.iri) && literal_is_numeric(&l2.iri))
        },
        _ => {
            Result::Err(
                QueryProcessingError::UnsupportedExpression(
                    String::from_str("no defined translation for this expression kind"),
                ),
            )
        },
    }
}

} // verus!
