use vstd::prelude::*;
use crate::ast::{Context, Variable, AggregateExpression, AggregateOp};
use crate::errors::QueryProcessingError;
use crate::solution_mapping::{SolutionMappings, find_col, clone_row, remove_column};
use crate::terms::{RDFNodeType, Term, TermV, LitValue, LitV, cell_same, cell_eq, cell_v,
    cell_fits, type_wf, type_clone_ok, term_wf, term_v};
use crate::expressions::drop_inner_contexts;

verus! {

/// One row of a relation, as a mathematical value.
pub open spec fn rows_model(sm: SolutionMappings) -> Seq<Seq<Option<Term>>> {
    Seq::new(sm.height() as nat, |i: int| sm.rows@[i]@)
}

/// Value equality of two rows, cell for cell.
pub open spec fn row_same(a: Seq<Option<Term>>, b: Seq<Option<Term>>) -> bool {
    a.len() == b.len() && forall|j: int| 0 <= j < a.len() ==> cell_same(#[trigger] a[j], b[j])
}

/// Equality test on rows reflecting `row_same`.
pub fn row_eq(a: &Vec<Option<Term>>, b: &Vec<Option<Term>>) -> (r: bool)
    ensures
        r == row_same(a@, b@),
{
    if a.len() != b.len() {
        return false;
    }
    let mut j: usize = 0;
    while j < a.len()
        invariant
            0 <= j <= a@.len(),
            a@.len() == b@.len(),
            forall|k: int| 0 <= k < j ==> cell_same(#[trigger] a@[k], b@[k]),
        decreases a@.len() - j,
    {
        if !cell_eq(&a[j], &b[j]) {
            return false;
        }
        j = j + 1;
    }
    true
}

/// Stable deduplication of a sequence of rows: the first occurrence of
/// every row value is kept, in the original order.
pub open spec fn dedup_rows(rows: Seq<Seq<Option<Term>>>) -> Seq<Seq<Option<Term>>>
    decreases rows.len(),
{
    if rows.len() == 0 {
        Seq::empty()
    } else {
        let prefix = dedup_rows(rows.drop_last());
        if exists|k: int| 0 <= k < rows.len() - 1 && row_same(rows[k], rows.last()) {
            prefix
        } else {
            prefix.push(rows.last())
        }
    }
}

/// Stable deduplication over all columns: the first occurrence of each
/// row value is kept and the order among survivors is preserved; schema
/// and types are unchanged.
pub fn distinct(sm: SolutionMappings) -> (res: Result<SolutionMappings, QueryProcessingError>)
    requires
        sm.wf(),
    ensures
        res matches Result::Ok(out) ==> {
            &&& out.wf()
            &&& out.names@ == sm.names@
            &&& out.types@ == sm.types@
            &&& rows_model(out) == dedup_rows(rows_model(sm))
        },
        res matches Result::Ok(_),
{
    let SolutionMappings { names, types, rows } = sm;
    let mut new_rows: Vec<Vec<Option<Term>>> = Vec::new();
    let mut i: usize = 0;
    while i < rows.len()
        invariant
            0 <= i <= rows@.len(),
            rows@ == sm.rows@,
            sm.wf(),
            Seq::new(new_rows@.len(), |k: int| new_rows@[k]@) == dedup_rows(
                Seq::new(i as nat, |k: int| rows@[k]@),
            ),
            forall|k: int| 0 <= k < new_rows@.len() ==> #[trigger] new_rows@[k]@.len()
                == sm.width(),
            forall|k: int, c: int|
                0 <= k < new_rows@.len() && 0 <= c < sm.width() ==> cell_fits(
                    #[trigger] new_rows@[k]@[c],
                    sm.types@[c],
                ),
        decreases rows@.len() - i,
    {
        let mut seen: bool = false;
        let mut k: usize = 0;
        while k < i
            invariant
                0 <= k <= i < rows@.len(),
                seen == exists|w: int| 0 <= w < k && row_same(rows@[w]@, rows@[i as int]@),
            decreases i - k,
        {
            if !seen {
                if row_eq(&rows[k], &rows[i]) {
                    seen = true;
                    proof {
                        assert(row_same(rows@[k as int]@, rows@[i as int]@));
                    }
                }
            } else {
                proof {
                    let w = choose|w: int| 0 <= w < k && row_same(rows@[w]@, rows@[i as int]@);
                    assert(0 <= w < k + 1 && row_same(rows@[w]@, rows@[i as int]@));
                }
            }
            k = k + 1;
        }
        proof {
            let pre = Seq::new(i as nat, |k2: int| rows@[k2]@);
            let cur = Seq::new(i as nat + 1, |k2: int| rows@[k2]@);
            assert(cur.drop_last() =~= pre);
            assert(cur.last() == rows@[i as int]@);
            assert(seen == exists|w: int| 0 <= w < cur.len() - 1 && row_same(cur[w], cur.last()))
                by {
                if seen {
                    let w = choose|w: int|
                        0 <= w < i as int && row_same(rows@[w]@, rows@[i as int]@);
                    assert(cur[w] == rows@[w]@);
                } else {
                    if exists|w: int| 0 <= w < cur.len() - 1 && row_same(cur[w], cur.last()) {
                        let w = choose|w: int|
                            0 <= w < cur.len() - 1 && row_same(cur[w], cur.last());
                        assert(rows@[w]@ == cur[w]);
                    }
                }
            }
        }
        if !seen {
            let nr = clone_row(&rows[i]);
            new_rows.push(nr);
            proof {
                assert(Seq::new(new_rows@.len(), |k2: int| new_rows@[k2]@) =~= dedup_rows(
                    Seq::new(i as nat + 1, |k2: int| rows@[k2]@),
                ));
            }
        } else {
            proof {
                assert(Seq::new(new_rows@.len(), |k2: int| new_rows@[k2]@) =~= dedup_rows(
                    Seq::new(i as nat + 1, |k2: int| rows@[k2]@),
                ));
            }
        }
        i = i + 1;
    }
    let out = SolutionMappings { names, types, rows: new_rows };
    proof {
        assert(Seq::new(i as nat, |k: int| rows@[k]@) =~= rows_model(sm));
        assert(rows_model(out) =~= Seq::new(new_rows@.len(), |k: int| new_rows@[k]@));
        assert(out.names@ == sm.names@);
        assert forall|a: int, b: int| 0 <= a < b < out.width() implies out.name(a) != out.name(
            b,
        ) by {
            assert(out.name(a) == sm.name(a));
            assert(out.name(b) == sm.name(b));
        }
        assert(out.wf());
    }
    Result::Ok(out)
}

/// Renames the compiled expression column to the extended variable's
/// name, moving its type-map entry with it.  Fails when the expression
/// column is missing or the variable already names another column.
pub fn extend(sm: SolutionMappings, expression_context: &Context, variable: &Variable) -> (res:
    Result<SolutionMappings, QueryProcessingError>)
    requires
        sm.wf(),
    ensures
        (res matches Result::Ok(_)) <==> (sm.has_col(expression_context@) && (!sm.has_col(
            variable@,
        ) || variable@ == expression_context@)),
        res matches Result::Err(e) ==> e matches
            QueryProcessingError::InternalInvariantViolation(_),
        res matches Result::Ok(out) ==> {
            &&& out.wf()
            &&& out.height() == sm.height()
            &&& out.types@ == sm.types@
            &&& forall|i: int| 0 <= i < sm.height() ==> out.rows@[i]@ == sm.rows@[i]@
            &&& forall|n: Seq<char>| #[trigger]
                out.has_col(n) <==> ((sm.has_col(n) && n != expression_context@) || n == variable@)
            &&& out.type_at(variable@) == sm.type_at(expression_context@)
            &&& forall|i: int|
                0 <= i < sm.height() ==> #[trigger] out.cell_at(i, variable@) == sm.cell_at(
                    i,
                    expression_context@,
                )
            &&& forall|n: Seq<char>|
                sm.has_col(n) && n != expression_context@ && n != variable@ ==> #[trigger]
                out.type_at(n) == sm.type_at(n)
            &&& forall|n: Seq<char>, i: int|
                sm.has_col(n) && n != expression_context@ && n != variable@ && 0 <= i < sm.height()
                    ==> #[trigger] out.cell_at(i, n) == sm.cell_at(i, n)
        },
{
    let j = match find_col(&sm, &expression_context.name) {
        Option::Some(j) => j,
        Option::None => {
            return Result::Err(
                QueryProcessingError::InternalInvariantViolation(
                    String::from_str("missing expression column"),
                ),
            );
        },
    };
    proof {
        sm.lemma_col_index(expression_context@);
    }
    match find_col(&sm, &variable.name) {
        Option::Some(jv) => {
            if jv != j {
                proof {
                    assert(sm.has_col(variable@));
                    sm.lemma_col_index(variable@);
                    assert(variable@ != expression_context@);
                }
                return Result::Err(
                    QueryProcessingError::InternalInvariantViolation(
                        String::from_str("variable already bound to another column"),
                    ),
                );
            }
        },
        Option::None => {},
    }
    let SolutionMappings { mut names, types, rows } = sm;
    names.set(j, variable.name.clone());
    let out = SolutionMappings { names, types, rows };
    proof {
        assert(out.names@ == sm.names@.update(j as int, out.names@[j as int]));
        assert(out.name(j as int) == variable@);
        assert forall|a: int| 0 <= a < out.width() && a != j as int implies out.name(a) == sm.name(
            a,
        ) by {}
        assert forall|a: int, b: int| 0 <= a < b < out.width() implies out.name(a) != out.name(
            b,
        ) by {
            if a == j as int {
                if sm.has_col(out.name(b)) {
                    if out.name(b) == variable@ {
                        sm.lemma_col_index(variable@);
                    }
                }
                assert(sm.has_col(sm.name(b)));
            } else if b == j as int {
                if out.name(a) == variable@ {
                    if sm.has_col(variable@) {
                        sm.lemma_col_index(variable@);
                    }
                }
                assert(sm.has_col(sm.name(a)));
            }
        }
        assert(out.wf());
        out.lemma_col_index(variable@);
        assert(out.col_index(variable@) == j as int);
        assert forall|n: Seq<char>| #[trigger] out.has_col(n) implies ((sm.has_col(n) && n
            != expression_context@) || n == variable@) by {
            out.lemma_col_index(n);
            let a = out.col_index(n);
            if a != j as int {
                assert(sm.name(a) == n);
            }
        }
        assert forall|n: Seq<char>| ((sm.has_col(n) && n != expression_context@) || n == variable@)
            implies out.has_col(n) by {
            if n == variable@ {
                assert(out.name(j as int) == n);
            } else {
                sm.lemma_col_index(n);
                let a = sm.col_index(n);
                assert(a != j as int);
                assert(out.name(a) == n);
            }
        }
        assert forall|n: Seq<char>|
            sm.has_col(n) && n != expression_context@ && n != variable@ implies #[trigger]
        out.type_at(n) == sm.type_at(n) && out.col_index(n) == sm.col_index(n) by {
            sm.lemma_col_index(n);
            let a = sm.col_index(n);
            assert(out.name(a) == n);
            out.lemma_col_index(n);
        }
    }
    Result::Ok(out)
}

/// A cell holding the boolean literal true.
pub open spec fn is_true_cell(c: Option<Term>) -> bool {
    match cell_v(c) {
        Option::Some(tv) => tv matches TermV::Lit(_, v) && v == LitV::B(true),
        Option::None => false,
    }
}

/// The rows whose cell in column `j` is boolean true, in order, each with
/// column `j` removed.
pub open spec fn filter_shrink(rows: Seq<Seq<Option<Term>>>, j: int) -> Seq<Seq<Option<Term>>>
    decreases rows.len(),
{
    if rows.len() == 0 {
        Seq::empty()
    } else {
        let prefix = filter_shrink(rows.drop_last(), j);
        if is_true_cell(rows.last()[j]) {
            prefix.push(rows.last().remove(j))
        } else {
            prefix
        }
    }
}

/// Keeps the rows on which the compiled filter column holds the boolean
/// true and drops that column; rows holding false or unbound are removed.
pub fn filter(sm: SolutionMappings, expression_context: &Context) -> (res: Result<
    SolutionMappings,
    QueryProcessingError,
>)
    requires
        sm.wf(),
    ensures
        (res matches Result::Ok(_)) <==> sm.has_col(expression_context@),
        res matches Result::Err(e) ==> e matches
            QueryProcessingError::InternalInvariantViolation(_),
        res matches Result::Ok(out) ==> {
            &&& out.wf()
            &&& out.names@ == sm.names@.remove(sm.col_index(expression_context@))
            &&& out.types@ == sm.types@.remove(sm.col_index(expression_context@))
            &&& rows_model(out) == filter_shrink(
                rows_model(sm),
                sm.col_index(expression_context@),
            )
        },
{
    let j = match find_col(&sm, &expression_context.name) {
        Option::Some(j) => j,
        Option::None => {
            return Result::Err(
                QueryProcessingError::InternalInvariantViolation(
                    String::from_str("missing filter column"),
                ),
            );
        },
    };
    proof {
        sm.lemma_col_index(expression_context@);
    }
    let mut kept: Vec<Vec<Option<Term>>> = Vec::new();
    let mut i: usize = 0;
    while i < sm.rows.len()
        invariant
            0 <= i <= sm.height(),
            sm.wf(),
            0 <= j < sm.width(),
            Seq::new(kept@.len(), |k: int| kept@[k]@) == filter_shrink(
                Seq::new(i as nat, |k: int| sm.rows@[k]@),
                j as int,
            ),
            forall|k: int| 0 <= k < kept@.len() ==> #[trigger] kept@[k]@.len() == sm.width() - 1,
            forall|k: int, c: int|
                0 <= k < kept@.len() && 0 <= c < sm.width() - 1 ==> cell_fits(
                    #[trigger] kept@[k]@[c],
                    sm.types@.remove(j as int)[c],
                ),
        decreases sm.height() - i,
    {
        proof {
            let pre = Seq::new(i as nat, |k2: int| sm.rows@[k2]@);
            let cur = Seq::new(i as nat + 1, |k2: int| sm.rows@[k2]@);
            assert(cur.drop_last() =~= pre);
            assert(cur.last() == sm.rows@[i as int]@);
        }
        let c = &sm.rows[i][j];
        let is_true: bool = match c {
            Option::Some(Term::Lit(_, LitValue::B(b))) => *b,
            _ => false,
        };
        if is_true {
            let mut nr = clone_row(&sm.rows[i]);
            nr.remove(j);
            proof {
                assert forall|c: int| 0 <= c < sm.width() - 1 implies cell_fits(
                    #[trigger] nr@[c],
                    sm.types@.remove(j as int)[c],
                ) by {
                    if c < j as int {
                        assert(nr@[c] == sm.rows@[i as int]@[c]);
                        assert(sm.types@.remove(j as int)[c] == sm.types@[c]);
                    } else {
                        assert(nr@[c] == sm.rows@[i as int]@[c + 1]);
                        assert(sm.types@.remove(j as int)[c] == sm.types@[c + 1]);
                    }
                }
            }
            kept.push(nr);
        }
        proof {
            assert(Seq::new(kept@.len(), |k2: int| kept@[k2]@) =~= filter_shrink(
                Seq::new(i as nat + 1, |k2: int| sm.rows@[k2]@),
                j as int,
            ));
        }
        i = i + 1;
    }
    let sm2 = remove_column(sm, j);
    let out = SolutionMappings { names: sm2.names, types: sm2.types, rows: kept };
    proof {
        assert(Seq::new(i as nat, |k: int| sm.rows@[k]@) =~= rows_model(sm));
        assert(rows_model(out) =~= Seq::new(out.rows@.len(), |k: int| out.rows@[k]@));
        assert(out.types@ == sm.types@.remove(j as int));
        assert(out.names@ == sm2.names@);
        assert forall|a: int, b: int| 0 <= a < b < out.width() implies out.name(a) != out.name(
            b,
        ) by {
            assert(out.name(a) == sm2.name(a));
            assert(out.name(b) == sm2.name(b));
        }
        assert(out.wf());
    }
    Result::Ok(out)
}

/// The requested variable names that name a column, in request order.
pub open spec fn present_vars(vars: Seq<Seq<char>>, sm: SolutionMappings) -> Seq<Seq<char>>
    decreases vars.len(),
{
    if vars.len() == 0 {
        Seq::empty()
    } else {
        let prefix = present_vars(vars.drop_last(), sm);
        if sm.has_col(vars.last()) {
            prefix.push(vars.last())
        } else {
            prefix
        }
    }
}

/// Projects to exactly the requested variables in request order.  A
/// requested variable without a column is skipped: after a correct
/// compilation this indicates an upstream bug but is not fatal here.
pub fn project(sm: SolutionMappings, variables: &Vec<Variable>) -> (res: Result<
    SolutionMappings,
    QueryProcessingError,
>)
    requires
        sm.wf(),
        forall|a: int, b: int|
            0 <= a < b < variables@.len() ==> #[trigger] variables@[a]@ != #[trigger]
            variables@[b]@,
    ensures
        res matches Result::Ok(out) ==> {
            &&& out.wf()
            &&& out.height() == sm.height()
            &&& Seq::new(out.width() as nat, |k: int| out.name(k)) == present_vars(
                Seq::new(variables@.len(), |k: int| variables@[k]@),
                sm,
            )
            &&& forall|n: Seq<char>| #[trigger]
                out.has_col(n) ==> sm.has_col(n) && type_clone_ok(out.type_at(n), sm.type_at(n))
            &&& forall|n: Seq<char>, i: int|
                #[trigger] out.has_col(n) && 0 <= i < sm.height() ==> #[trigger] out.cell_at(i, n)
                    == sm.cell_at(i, n)
        },
        res matches Result::Ok(_),
{
    let ghost var_views = Seq::new(variables@.len(), |k: int| variables@[k]@);
    let mut idxs: Vec<usize> = Vec::new();
    let mut names: Vec<String> = Vec::new();
    let mut types: Vec<RDFNodeType> = Vec::new();
    let mut k: usize = 0;
    while k < variables.len()
        invariant
            0 <= k <= variables@.len(),
            sm.wf(),
            var_views == Seq::new(variables@.len(), |k2: int| variables@[k2]@),
            names@.len() == idxs@.len(),
            types@.len() == idxs@.len(),
            forall|w: int|
                0 <= w < idxs@.len() ==> 0 <= #[trigger] idxs@[w] < sm.width(),
            forall|w: int|
                0 <= w < idxs@.len() ==> #[trigger] names@[w]@ == sm.name(idxs@[w] as int),
            forall|w: int|
                0 <= w < idxs@.len() ==> type_clone_ok(
                    #[trigger] types@[w],
                    sm.types@[idxs@[w] as int],
                ),
            Seq::new(names@.len(), |w: int| names@[w]@) == present_vars(
                var_views.take(k as int),
                sm,
            ),
        decreases variables@.len() - k,
    {
        proof {
            assert(var_views.take(k as int + 1).drop_last() =~= var_views.take(k as int));
            assert(var_views.take(k as int + 1).last() == variables@[k as int]@);
        }
        match find_col(&sm, &variables[k].name) {
            Option::Some(j) => {
                idxs.push(j);
                names.push(variables[k].name.clone());
                types.push(sm.types[j].clone());
                proof {
                    sm.lemma_col_index(variables@[k as int]@);
                    assert(Seq::new(names@.len(), |w: int| names@[w]@) =~= present_vars(
                        var_views.take(k as int + 1),
                        sm,
                    ));
                }
            },
            Option::None => {
                proof {
                    assert(Seq::new(names@.len(), |w: int| names@[w]@) =~= present_vars(
                        var_views.take(k as int + 1),
                        sm,
                    ));
                }
            },
        }
        k = k + 1;
    }
    proof {
        assert(var_views.take(variables@.len() as int) =~= var_views);
    }
    let mut new_rows: Vec<Vec<Option<Term>>> = Vec::new();
    let mut i: usize = 0;
    while i < sm.rows.len()
        invariant
            0 <= i <= sm.height(),
            sm.wf(),
            forall|w: int|
                0 <= w < idxs@.len() ==> 0 <= #[trigger] idxs@[w] < sm.width(),
            new_rows@.len() == i,
            forall|r: int|
                0 <= r < i ==> #[trigger] new_rows@[r]@.len() == idxs@.len(),
            forall|r: int, w: int|
                0 <= r < i && 0 <= w < idxs@.len() ==> #[trigger] new_rows@[r]@[w] == sm.rows@[r]@[idxs@[w] as int],
        decreases sm.height() - i,
    {
        let mut nr: Vec<Option<Term>> = Vec::new();
        let mut w: usize = 0;
        while w < idxs.len()
            invariant
                0 <= w <= idxs@.len(),
                sm.wf(),
                0 <= i < sm.height(),
                forall|w2: int|
                    0 <= w2 < idxs@.len() ==> 0 <= #[trigger] idxs@[w2] < sm.width(),
                nr@.len() == w,
                forall|w2: int|
                    0 <= w2 < w ==> #[trigger] nr@[w2] == sm.rows@[i as int]@[idxs@[w2] as int],
            decreases idxs@.len() - w,
        {
            nr.push(crate::terms::clone_cell(&sm.rows[i][idxs[w]]));
            w = w + 1;
        }
        new_rows.push(nr);
        i = i + 1;
    }
    let out = SolutionMappings { names, types, rows: new_rows };
    proof {
        assert forall|a: int, b: int| 0 <= a < b < out.width() implies out.name(a) != out.name(
            b,
        ) by {
            let pv = present_vars(var_views, sm);
            lemma_present_vars_distinct(var_views, sm);
            assert(out.name(a) == pv[a]);
            assert(out.name(b) == pv[b]);
        }
        assert forall|w: int| 0 <= w < out.width() implies type_wf(
            #[trigger] out.types@[w],
        ) by {
            crate::terms::lemma_type_clone_wf(sm.types@[idxs@[w] as int], out.types@[w]);
        }
        assert forall|r: int, c: int|
            0 <= r < out.height() && 0 <= c < out.width() implies cell_fits(
            #[trigger] out.rows@[r]@[c],
            out.types@[c],
        ) by {
            assert(out.rows@[r]@[c] == sm.rows@[r]@[idxs@[c] as int]);
            assert(cell_fits(sm.rows@[r]@[idxs@[c] as int], sm.types@[idxs@[c] as int]));
            crate::terms::lemma_type_clone_fits(
                out.rows@[r]@[c],
                sm.types@[idxs@[c] as int],
                out.types@[c],
            );
        }
        assert(out.wf());
        assert(Seq::new(out.width() as nat, |k2: int| out.name(k2)) =~= present_vars(
            var_views,
            sm,
        ));
        assert forall|n: Seq<char>| #[trigger] out.has_col(n) implies sm.has_col(n)
            && type_clone_ok(out.type_at(n), sm.type_at(n)) && (forall|i2: int|
            0 <= i2 < sm.height() ==> #[trigger] out.cell_at(i2, n) == sm.cell_at(i2, n)) by {
            out.lemma_col_index(n);
            let w = out.col_index(n);
            assert(sm.name(idxs@[w] as int) == n);
            sm.lemma_col_index(n);
            assert(sm.col_index(n) == idxs@[w] as int);
        }
    }
    Result::Ok(out)
}

/// A join key matches only between two bound cells of equal value: an
/// unbound key never matches, not even another unbound key.
pub open spec fn join_cells_match(a: Option<Term>, b: Option<Term>) -> bool {
    match (a, b) {
        (Option::Some(x), Option::Some(y)) => crate::terms::term_same(x, y),
        _ => false,
    }
}

/// Row `i` of `l` and row `j` of `r` agree on every shared column.  With
/// no shared column this holds vacuously: the join degenerates to a cross
/// product.
pub open spec fn rows_join_match(
    l: SolutionMappings,
    r: SolutionMappings,
    i: int,
    j: int,
) -> bool {
    forall|n: Seq<char>|
        l.has_col(n) && r.has_col(n) ==> join_cells_match(#[trigger] l.cell_at(i, n), r.cell_at(j, n))
}

/// The relations share at least one column name.
pub open spec fn has_shared_col(l: SolutionMappings, r: SolutionMappings) -> bool {
    exists|n: Seq<char>| l.has_col(n) && r.has_col(n)
}

/// The indices below `upto` of the columns of `r` whose names do not
/// occur in `l`, in order.
pub open spec fn right_only_idxs(l: SolutionMappings, r: SolutionMappings, upto: int) -> Seq<int>
    decreases upto,
{
    if upto <= 0 {
        Seq::empty()
    } else {
        let prefix = right_only_idxs(l, r, upto - 1);
        if l.has_col(r.name(upto - 1)) {
            prefix
        } else {
            prefix.push(upto - 1)
        }
    }
}

/// The output row of a join for left row `i` and right row `j`: the whole
/// left row, then the right row's cells in the right-only columns.
pub open spec fn joined_row(l: SolutionMappings, r: SolutionMappings, i: int, j: int) -> Seq<
    Option<Term>,
> {
    l.rows@[i]@ + Seq::new(
        right_only_idxs(l, r, r.width()).len(),
        |w: int| r.rows@[j]@[right_only_idxs(l, r, r.width())[w]],
    )
}

/// The joined rows of left row `i` against the first `jmax` right rows.
pub open spec fn join_matches_upto(
    l: SolutionMappings,
    r: SolutionMappings,
    i: int,
    jmax: int,
) -> Seq<Seq<Option<Term>>>
    decreases jmax,
{
    if jmax <= 0 {
        Seq::empty()
    } else {
        let prefix = join_matches_upto(l, r, i, jmax - 1);
        if rows_join_match(l, r, i, jmax - 1) {
            prefix.push(joined_row(l, r, i, jmax - 1))
        } else {
            prefix
        }
    }
}

/// The inner-join rows of the first `imax` left rows against all of `r`:
/// left-major, right rows in order within one left row.
pub open spec fn join_model_upto(l: SolutionMappings, r: SolutionMappings, imax: int) -> Seq<
    Seq<Option<Term>>,
>
    decreases imax,
{
    if imax <= 0 {
        Seq::empty()
    } else {
        join_model_upto(l, r, imax - 1) + join_matches_upto(l, r, imax - 1, r.height())
    }
}

/// The rows of the inner join of `l` and `r`.
pub open spec fn join_model(l: SolutionMappings, r: SolutionMappings) -> Seq<Seq<Option<Term>>> {
    join_model_upto(l, r, l.height())
}

/// A left row extended with unbound cells for every right-only column.
pub open spec fn null_padded_row(l: SolutionMappings, r: SolutionMappings, i: int) -> Seq<
    Option<Term>,
> {
    l.rows@[i]@ + Seq::new(
        right_only_idxs(l, r, r.width()).len(),
        |w: int| Option::<Term>::None,
    )
}

/// The left-join rows of the first `imax` left rows: matching combined
/// rows where a match exists, the null-padded left row otherwise.
pub open spec fn left_join_model_upto(l: SolutionMappings, r: SolutionMappings, imax: int) -> Seq<
    Seq<Option<Term>>,
>
    decreases imax,
{
    if imax <= 0 {
        Seq::empty()
    } else {
        let prefix = left_join_model_upto(l, r, imax - 1);
        let matches = join_matches_upto(l, r, imax - 1, r.height());
        if matches.len() == 0 {
            prefix.push(null_padded_row(l, r, imax - 1))
        } else {
            prefix + matches
        }
    }
}

/// The rows of the left join of `l` and `r`.
pub open spec fn left_join_model(l: SolutionMappings, r: SolutionMappings) -> Seq<
    Seq<Option<Term>>,
> {
    left_join_model_upto(l, r, l.height())
}

/// The anti-join rows of the first `imax` left rows: those with no
/// matching right row, unchanged and in order.
pub open spec fn minus_model_upto(l: SolutionMappings, r: SolutionMappings, imax: int) -> Seq<
    Seq<Option<Term>>,
>
    decreases imax,
{
    if imax <= 0 {
        Seq::empty()
    } else {
        let prefix = minus_model_upto(l, r, imax - 1);
        if exists|j: int| 0 <= j < r.height() && #[trigger] rows_join_match(l, r, imax - 1, j) {
            prefix
        } else {
            prefix.push(l.rows@[imax - 1]@)
        }
    }
}

/// The rows of the anti-join of `l` and `r`.
pub open spec fn minus_model(l: SolutionMappings, r: SolutionMappings) -> Seq<Seq<Option<Term>>> {
    minus_model_upto(l, r, l.height())
}

/// The shared-column index pairs: sound and complete for the shared names.
pub open spec fn shared_pairs_ok(
    l: SolutionMappings,
    r: SolutionMappings,
    pairs: Seq<(usize, usize)>,
) -> bool {
    &&& forall|k: int|
        0 <= k < pairs.len() ==> (#[trigger] pairs[k]).0 < l.width() && pairs[k].1 < r.width()
            && l.name(pairs[k].0 as int) == r.name(pairs[k].1 as int)
    &&& forall|n: Seq<char>|
        l.has_col(n) && r.has_col(n) ==> exists|k: int|
            0 <= k < pairs.len() && l.name((#[trigger] pairs[k]).0 as int) == n
}

/// Collects the shared-column index pairs, scanning the left schema in
/// order.
fn shared_cols(l: &SolutionMappings, r: &SolutionMappings) -> (pairs: Vec<(usize, usize)>)
    requires
        l.wf(),
        r.wf(),
    ensures
        shared_pairs_ok(*l, *r, pairs@),
        pairs@.len() == 0 <==> !has_shared_col(*l, *r),
{
    let mut pairs: Vec<(usize, usize)> = Vec::new();
    let mut jl: usize = 0;
    while jl < l.names.len()
        invariant
            0 <= jl <= l.width(),
            l.wf(),
            r.wf(),
            forall|k: int|
                0 <= k < pairs@.len() ==> (#[trigger] pairs@[k]).0 < l.width() && pairs@[k].1
                    < r.width() && l.name(pairs@[k].0 as int) == r.name(pairs@[k].1 as int),
            forall|w: int|
                0 <= w < jl && r.has_col(#[trigger] l.name(w)) ==> exists|k: int|
                    0 <= k < pairs@.len() && l.name((#[trigger] pairs@[k]).0 as int) == l.name(w),
            pairs@.len() == 0 ==> forall|w: int| 0 <= w < jl ==> !r.has_col(#[trigger] l.name(w)),
        decreases l.width() - jl,
    {
        match find_col(r, &l.names[jl]) {
            Option::Some(jr) => {
                let ghost old_pairs = pairs@;
                pairs.push((jl, jr));
                proof {
                    assert forall|w: int|
                        0 <= w < jl as int + 1 && r.has_col(#[trigger] l.name(w)) implies exists|
                        k: int,
                    |
                        0 <= k < pairs@.len() && l.name((#[trigger] pairs@[k]).0 as int) == l.name(
                            w,
                        ) by {
                        if w < jl as int {
                            let k = choose|k: int|
                                0 <= k < old_pairs.len() && l.name((old_pairs[k]).0 as int)
                                    == l.name(w);
                            assert(pairs@[k] == old_pairs[k]);
                            assert(l.name((pairs@[k]).0 as int) == l.name(w));
                        } else {
                            let k = pairs@.len() - 1;
                            assert(l.name((pairs@[k]).0 as int) == l.name(jl as int));
                        }
                    }
                }
            },
            Option::None => {},
        }
        jl = jl + 1;
    }
    proof {
        assert forall|n: Seq<char>| l.has_col(n) && r.has_col(n) implies exists|k: int|
            0 <= k < pairs@.len() && l.name((#[trigger] pairs@[k]).0 as int) == n by {
            l.lemma_col_index(n);
            let w = l.col_index(n);
            assert(r.has_col(l.name(w)));
        }
        if pairs@.len() == 0 {
            assert forall|n: Seq<char>| !(l.has_col(n) && r.has_col(n)) by {
                if l.has_col(n) && r.has_col(n) {
                    l.lemma_col_index(n);
                    let w = l.col_index(n);
                    assert(!r.has_col(l.name(w)));
                }
            }
        } else {
            let p0 = pairs@[0];
            assert(l.has_col(l.name(p0.0 as int)));
            assert(r.has_col(r.name(p0.1 as int)));
        }
    }
    pairs
}

/// Tests whether left row `i` and right row `j` agree on every shared
/// column.
fn rows_match(
    l: &SolutionMappings,
    r: &SolutionMappings,
    i: usize,
    j: usize,
    pairs: &Vec<(usize, usize)>,
) -> (m: bool)
    requires
        l.wf(),
        r.wf(),
        shared_pairs_ok(*l, *r, pairs@),
        0 <= i < l.height(),
        0 <= j < r.height(),
    ensures
        m == rows_join_match(*l, *r, i as int, j as int),
{
    let mut k: usize = 0;
    while k < pairs.len()
        invariant
            0 <= k <= pairs@.len(),
            l.wf(),
            r.wf(),
            shared_pairs_ok(*l, *r, pairs@),
            0 <= i < l.height(),
            0 <= j < r.height(),
            forall|w: int|
                0 <= w < k ==> join_cells_match(
                    l.cell(i as int, (#[trigger] pairs@[w]).0 as int),
                    r.cell(j as int, pairs@[w].1 as int),
                ),
        decreases pairs@.len() - k,
    {
        let (a, b) = (pairs[k].0, pairs[k].1);
        let ca = &l.rows[i][a];
        let cb = &r.rows[j][b];
        let ok: bool = match (ca, cb) {
            (Option::Some(x), Option::Some(y)) => crate::terms::term_eq(x, y),
            _ => false,
        };
        if !ok {
            proof {
                let n = l.name(a as int);
                assert(l.has_col(n));
                assert(r.name(b as int) == n);
                assert(r.has_col(n));
                l.lemma_col_index(n);
                r.lemma_col_index(n);
                assert(l.cell_at(i as int, n) == l.cell(i as int, a as int));
                assert(r.cell_at(j as int, n) == r.cell(j as int, b as int));
                assert(!join_cells_match(l.cell_at(i as int, n), r.cell_at(j as int, n)));
            }
            return false;
        }
        k = k + 1;
    }
    proof {
        assert forall|n: Seq<char>| l.has_col(n) && r.has_col(n) implies join_cells_match(
            #[trigger] l.cell_at(i as int, n),
            r.cell_at(j as int, n),
        ) by {
            let w = choose|w: int|
                0 <= w < pairs@.len() && l.name((#[trigger] pairs@[w]).0 as int) == n;
            l.lemma_col_index(n);
            r.lemma_col_index(n);
            assert(l.col_index(n) == pairs@[w].0 as int);
            assert(r.name(pairs@[w].1 as int) == n);
            assert(r.col_index(n) == pairs@[w].1 as int);
        }
    }
    true
}

/// With no shared column, every left row matches every right row.
proof fn lemma_join_matches_full(l: SolutionMappings, r: SolutionMappings, i: int, jmax: int)
    requires
        !has_shared_col(l, r),
        0 <= jmax,
    ensures
        join_matches_upto(l, r, i, jmax).len() == jmax,
    decreases jmax,
{
    if jmax > 0 {
        lemma_join_matches_full(l, r, i, jmax - 1);
        assert(rows_join_match(l, r, i, jmax - 1));
    }
}

proof fn lemma_join_cross_upto(l: SolutionMappings, r: SolutionMappings, imax: int)
    requires
        !has_shared_col(l, r),
        0 <= imax,
    ensures
        join_model_upto(l, r, imax).len() == imax * r.height(),
    decreases imax,
{
    if imax > 0 {
        lemma_join_cross_upto(l, r, imax - 1);
        lemma_join_matches_full(l, r, imax - 1, r.height());
        assert(join_model_upto(l, r, imax) == join_model_upto(l, r, imax - 1)
            + join_matches_upto(l, r, imax - 1, r.height()));
        assert((imax - 1) * r.height() + r.height() == imax * r.height()) by (nonlinear_arith);
    } else {
        assert(join_model_upto(l, r, imax) =~= Seq::<Seq<Option<Term>>>::empty());
        assert(imax * r.height() == 0) by (nonlinear_arith)
            requires
                imax == 0,
        ;
    }
}

/// A join of two relations without a shared column behaves as a cross
/// product: one output row for every pair of input rows.
pub proof fn lemma_join_cross_product(l: SolutionMappings, r: SolutionMappings)
    requires
        !has_shared_col(l, r),
    ensures
        join_model(l, r).len() == l.height() * r.height(),
{
    lemma_join_cross_upto(l, r, l.height());
}

/// Inner join.  Shared columns are the columns present on both sides; a
/// row pair joins when it agrees on all of them, and with no shared
/// column every pair joins (a cross product).  The output schema is the
/// left schema followed by the right-only columns; on a name collision
/// the left type wins.
pub fn join(
    left_solution_mappings: SolutionMappings,
    right_solution_mappings: SolutionMappings,
) -> (res: Result<SolutionMappings, QueryProcessingError>)
    requires
        left_solution_mappings.wf(),
        right_solution_mappings.wf(),
    ensures
        res matches Result::Ok(out) ==> {
            let l = left_solution_mappings;
            let r = right_solution_mappings;
            &&& out.wf()
            &&& forall|n: Seq<char>| #[trigger] out.has_col(n) <==> (l.has_col(n) || r.has_col(n))
            &&& forall|n: Seq<char>|
                l.has_col(n) ==> #[trigger] out.type_at(n) == l.type_at(n)
            &&& forall|n: Seq<char>|
                !l.has_col(n) && r.has_col(n) ==> type_clone_ok(#[trigger] out.type_at(n), r.type_at(n))
            &&& rows_model(out) == join_model(l, r)
            &&& (!has_shared_col(l, r) ==> out.height() == l.height() * r.height())
        },
        res matches Result::Ok(_),
{
    let l = left_solution_mappings;
    let r = right_solution_mappings;
    let pairs = shared_cols(&l, &r);
    // right-only column indices
    let mut ro: Vec<usize> = Vec::new();
    let mut jr: usize = 0;
    while jr < r.names.len()
        invariant
            0 <= jr <= r.width(),
            l.wf(),
            r.wf(),
            Seq::new(ro@.len(), |w: int| ro@[w] as int) == right_only_idxs(l, r, jr as int),
            forall|w: int| 0 <= w < ro@.len() ==> #[trigger] ro@[w] < r.width(),
        decreases r.width() - jr,
    {
        match find_col(&l, &r.names[jr]) {
            Option::Some(_) => {
                proof {
                    assert(Seq::new(ro@.len(), |w: int| ro@[w] as int) =~= right_only_idxs(
                        l,
                        r,
                        jr as int + 1,
                    ));
                }
            },
            Option::None => {
                ro.push(jr);
                proof {
                    assert(Seq::new(ro@.len(), |w: int| ro@[w] as int) =~= right_only_idxs(
                        l,
                        r,
                        jr as int + 1,
                    ));
                }
            },
        }
        jr = jr + 1;
    }
    let ghost ro_spec = right_only_idxs(l, r, r.width());
    proof {
        assert(Seq::new(ro@.len(), |w: int| ro@[w] as int) == ro_spec);
    }
    // build the joined rows
    let mut new_rows: Vec<Vec<Option<Term>>> = Vec::new();
    let mut i: usize = 0;
    while i < l.rows.len()
        invariant
            0 <= i <= l.height(),
            l.wf(),
            r.wf(),
            shared_pairs_ok(l, r, pairs@),
            Seq::new(ro@.len(), |w: int| ro@[w] as int) == ro_spec,
            ro_spec == right_only_idxs(l, r, r.width()),
            forall|w: int| 0 <= w < ro@.len() ==> #[trigger] ro@[w] < r.width(),
            Seq::new(new_rows@.len(), |k: int| new_rows@[k]@) == join_model_upto(l, r, i as int),
            forall|k: int|
                0 <= k < new_rows@.len() ==> #[trigger] new_rows@[k]@.len() == l.width()
                    + ro@.len(),
            forall|k: int, c: int|
                0 <= k < new_rows@.len() && 0 <= c < l.width() ==> cell_fits(
                    #[trigger] new_rows@[k]@[c],
                    l.types@[c],
                ),
            forall|k: int, c: int|
                0 <= k < new_rows@.len() && l.width() <= c < l.width() + ro@.len() ==> cell_fits(
                    #[trigger] new_rows@[k]@[c],
                    r.types@[ro@[c - l.width()] as int],
                ),
        decreases l.height() - i,
    {
        let mut j: usize = 0;
        while j < r.rows.len()
            invariant
                0 <= j <= r.height(),
                0 <= i < l.height(),
                l.wf(),
                r.wf(),
                shared_pairs_ok(l, r, pairs@),
                Seq::new(ro@.len(), |w: int| ro@[w] as int) == ro_spec,
                ro_spec == right_only_idxs(l, r, r.width()),
                forall|w: int| 0 <= w < ro@.len() ==> #[trigger] ro@[w] < r.width(),
                Seq::new(new_rows@.len(), |k: int| new_rows@[k]@) == join_model_upto(l, r, i as int)
                    + join_matches_upto(l, r, i as int, j as int),
                forall|k: int|
                    0 <= k < new_rows@.len() ==> #[trigger] new_rows@[k]@.len() == l.width()
                        + ro@.len(),
                forall|k: int, c: int|
                    0 <= k < new_rows@.len() && 0 <= c < l.width() ==> cell_fits(
                        #[trigger] new_rows@[k]@[c],
                        l.types@[c],
                    ),
                forall|k: int, c: int|
                    0 <= k < new_rows@.len() && l.width() <= c < l.width() + ro@.len()
                        ==> cell_fits(
                        #[trigger] new_rows@[k]@[c],
                        r.types@[ro@[c - l.width()] as int],
                    ),
            decreases r.height() - j,
        {
            if rows_match(&l, &r, i, j, &pairs) {
                let mut nr = clone_row(&l.rows[i]);
                let mut w: usize = 0;
                while w < ro.len()
                    invariant
                        0 <= w <= ro@.len(),
                        l.wf(),
                        r.wf(),
                        0 <= i < l.height(),
                        0 <= j < r.height(),
                        forall|w2: int| 0 <= w2 < ro@.len() ==> #[trigger] ro@[w2] < r.width(),
                        nr@.len() == l.width() + w,
                        forall|c: int| 0 <= c < l.width() ==> #[trigger] nr@[c] == l.rows@[i as int]@[c],
                        forall|c: int|
                            l.width() <= c < l.width() + w ==> #[trigger] nr@[c] == r.rows@[j as int]@[ro@[c - l.width()] as int],
                    decreases ro@.len() - w,
                {
                    nr.push(crate::terms::clone_cell(&r.rows[j][ro[w]]));
                    w = w + 1;
                }
                proof {
                    assert(nr@ =~= joined_row(l, r, i as int, j as int));
                    assert(join_matches_upto(l, r, i as int, j as int + 1) == join_matches_upto(
                        l,
                        r,
                        i as int,
                        j as int,
                    ).push(joined_row(l, r, i as int, j as int)));
                }
                let ghost before = new_rows@;
                let ghost nr_snap = nr;
                new_rows.push(nr);
                proof {
                    let model_before = Seq::new(before.len(), |k: int| before[k]@);
                    assert(model_before == join_model_upto(l, r, i as int) + join_matches_upto(
                        l,
                        r,
                        i as int,
                        j as int,
                    ));
                    assert(new_rows@ == before.push(nr_snap));
                    assert(Seq::new(new_rows@.len(), |k: int| new_rows@[k]@) =~= model_before.push(
                        nr_snap@,
                    ));
                    assert(nr_snap@ == joined_row(l, r, i as int, j as int));
                    assert(join_model_upto(l, r, i as int) + join_matches_upto(
                        l,
                        r,
                        i as int,
                        j as int + 1,
                    ) =~= model_before.push(joined_row(l, r, i as int, j as int)));
                    assert(Seq::new(new_rows@.len(), |k: int| new_rows@[k]@) == join_model_upto(
                        l,
                        r,
                        i as int,
                    ) + join_matches_upto(l, r, i as int, j as int + 1));
                }
            } else {
                proof {
                    assert(join_matches_upto(l, r, i as int, j as int + 1) == join_matches_upto(
                        l,
                        r,
                        i as int,
                        j as int,
                    ));
                }
            }
            j = j + 1;
        }
        proof {
            assert(join_model_upto(l, r, i as int + 1) == join_model_upto(l, r, i as int)
                + join_matches_upto(l, r, i as int, r.height()));
        }
        i = i + 1;
    }
    // assemble the schema: left columns, then the right-only columns
    let SolutionMappings { names: mut out_names, types: mut out_types, rows: _l_rows } = l;
    let mut w: usize = 0;
    while w < ro.len()
        invariant
            0 <= w <= ro@.len(),
            l.wf(),
            r.wf(),
            forall|w2: int| 0 <= w2 < ro@.len() ==> #[trigger] ro@[w2] < r.width(),
            out_names@.len() == l.width() + w,
            out_types@.len() == l.width() + w,
            forall|c: int| 0 <= c < l.width() ==> #[trigger] out_names@[c] == l.names@[c],
            forall|c: int| 0 <= c < l.width() ==> #[trigger] out_types@[c] == l.types@[c],
            forall|c: int|
                l.width() <= c < l.width() + w ==> #[trigger] out_names@[c]@ == r.name(
                    ro@[c - l.width()] as int,
                ),
            forall|c: int|
                l.width() <= c < l.width() + w ==> type_clone_ok(
                    #[trigger] out_types@[c],
                    r.types@[ro@[c - l.width()] as int],
                ),
        decreases ro@.len() - w,
    {
        out_names.push(r.names[ro[w]].clone());
        out_types.push(r.types[ro[w]].clone());
        w = w + 1;
    }
    let out = SolutionMappings { names: out_names, types: out_types, rows: new_rows };
    proof {
        lemma_right_only_props(l, r, r.width());
        let rol = ro_spec.len() as int;
        // distinct names
        assert forall|a: int, b: int| 0 <= a < b < out.width() implies out.name(a) != out.name(
            b,
        ) by {
            if b < l.width() {
                assert(out.name(a) == l.name(a));
                assert(out.name(b) == l.name(b));
            } else if a < l.width() {
                assert(out.name(a) == l.name(a));
                assert(out.name(b) == r.name(ro_spec[b - l.width()]));
                assert(!l.has_col(r.name(ro_spec[b - l.width()])));
                assert(l.has_col(l.name(a)));
            } else {
                assert(out.name(a) == r.name(ro_spec[a - l.width()]));
                assert(out.name(b) == r.name(ro_spec[b - l.width()]));
                assert(ro_spec[a - l.width()] < ro_spec[b - l.width()]);
            }
        }
        assert forall|c: int| 0 <= c < out.width() implies type_wf(#[trigger] out.types@[c]) by {
            if c < l.width() {
            } else {
                crate::terms::lemma_type_clone_wf(
                    r.types@[ro_spec[c - l.width()]],
                    out.types@[c],
                );
            }
        }
        assert forall|k: int, c: int|
            0 <= k < out.height() && 0 <= c < out.width() implies cell_fits(
            #[trigger] out.rows@[k]@[c],
            out.types@[c],
        ) by {
            if c < l.width() {
            } else {
                crate::terms::lemma_type_clone_fits(
                    out.rows@[k]@[c],
                    r.types@[ro_spec[c - l.width()]],
                    out.types@[c],
                );
            }
        }
        assert(out.wf());
        // schema clauses
        assert forall|n: Seq<char>| #[trigger] out.has_col(n) implies (l.has_col(n) || r.has_col(
            n,
        )) by {
            out.lemma_col_index(n);
            let c = out.col_index(n);
            if c < l.width() {
                assert(l.name(c) == n);
            } else {
                assert(r.name(ro_spec[c - l.width()]) == n);
            }
        }
        assert forall|n: Seq<char>| l.has_col(n) implies out.has_col(n) && #[trigger] out.type_at(
            n,
        ) == l.type_at(n) by {
            l.lemma_col_index(n);
            let c = l.col_index(n);
            assert(out.name(c) == n);
            assert(out.has_col(n));
            out.lemma_col_index(n);
            assert(out.col_index(n) == c);
        }
        assert forall|n: Seq<char>| !l.has_col(n) && r.has_col(n) implies out.has_col(n)
            && type_clone_ok(#[trigger] out.type_at(n), r.type_at(n)) by {
            r.lemma_col_index(n);
            let c = r.col_index(n);
            lemma_right_only_covers(l, r, r.width(), c);
            let w2 = choose|w2: int| 0 <= w2 < ro_spec.len() && ro_spec[w2] == c;
            assert(out.name(l.width() + w2) == n);
            assert(out.has_col(n));
            out.lemma_col_index(n);
            assert(out.col_index(n) == l.width() + w2);
        }
        assert forall|n: Seq<char>| (l.has_col(n) || r.has_col(n)) implies #[trigger] out.has_col(
            n,
        ) by {
            if l.has_col(n) {
                l.lemma_col_index(n);
                assert(out.name(l.col_index(n)) == n);
            } else {
                r.lemma_col_index(n);
                let c = r.col_index(n);
                lemma_right_only_covers(l, r, r.width(), c);
                let w2 = choose|w2: int| 0 <= w2 < ro_spec.len() && ro_spec[w2] == c;
                assert(out.name(l.width() + w2) == n);
            }
        }
        assert(rows_model(out) =~= Seq::new(out.rows@.len(), |k: int| out.rows@[k]@));
        assert(rows_model(out) == join_model(l, r));
        if !has_shared_col(l, r) {
            lemma_join_cross_product(l, r);
        }
    }
    Result::Ok(out)
}

/// Left join.  Like the inner join, but a left row without any matching
/// right row is kept once, its right-only columns unbound.
pub fn left_join(
    left_solution_mappings: SolutionMappings,
    right_solution_mappings: SolutionMappings,
) -> (res: Result<SolutionMappings, QueryProcessingError>)
    requires
        left_solution_mappings.wf(),
        right_solution_mappings.wf(),
    ensures
        res matches Result::Ok(out) ==> {
            let l = left_solution_mappings;
            let r = right_solution_mappings;
            &&& out.wf()
            &&& forall|n: Seq<char>| #[trigger] out.has_col(n) <==> (l.has_col(n) || r.has_col(n))
            &&& forall|n: Seq<char>|
                l.has_col(n) ==> #[trigger] out.type_at(n) == l.type_at(n)
            &&& forall|n: Seq<char>|
                !l.has_col(n) && r.has_col(n) ==> type_clone_ok(#[trigger] out.type_at(n), r.type_at(n))
            &&& rows_model(out) == left_join_model(l, r)
        },
        res matches Result::Ok(_),
{
    let l = left_solution_mappings;
    let r = right_solution_mappings;
    let pairs = shared_cols(&l, &r);
    let mut ro: Vec<usize> = Vec::new();
    let mut jr: usize = 0;
    while jr < r.names.len()
        invariant
            0 <= jr <= r.width(),
            l.wf(),
            r.wf(),
            Seq::new(ro@.len(), |w: int| ro@[w] as int) == right_only_idxs(l, r, jr as int),
            forall|w: int| 0 <= w < ro@.len() ==> #[trigger] ro@[w] < r.width(),
        decreases r.width() - jr,
    {
        match find_col(&l, &r.names[jr]) {
            Option::Some(_) => {
                proof {
                    assert(Seq::new(ro@.len(), |w: int| ro@[w] as int) =~= right_only_idxs(
                        l,
                        r,
                        jr as int + 1,
                    ));
                }
            },
            Option::None => {
                ro.push(jr);
                proof {
                    assert(Seq::new(ro@.len(), |w: int| ro@[w] as int) =~= right_only_idxs(
                        l,
                        r,
                        jr as int + 1,
                    ));
                }
            },
        }
        jr = jr + 1;
    }
    let ghost ro_spec = right_only_idxs(l, r, r.width());
    proof {
        assert(Seq::new(ro@.len(), |w: int| ro@[w] as int) == ro_spec);
    }
    let mut new_rows: Vec<Vec<Option<Term>>> = Vec::new();
    let mut i: usize = 0;
    while i < l.rows.len()
        invariant
            0 <= i <= l.height(),
            l.wf(),
            r.wf(),
            shared_pairs_ok(l, r, pairs@),
            Seq::new(ro@.len(), |w: int| ro@[w] as int) == ro_spec,
            ro_spec == right_only_idxs(l, r, r.width()),
            forall|w: int| 0 <= w < ro@.len() ==> #[trigger] ro@[w] < r.width(),
            Seq::new(new_rows@.len(), |k: int| new_rows@[k]@) == left_join_model_upto(
                l,
                r,
                i as int,
            ),
            forall|k: int|
                0 <= k < new_rows@.len() ==> #[trigger] new_rows@[k]@.len() == l.width()
                    + ro@.len(),
            forall|k: int, c: int|
                0 <= k < new_rows@.len() && 0 <= c < l.width() ==> cell_fits(
                    #[trigger] new_rows@[k]@[c],
                    l.types@[c],
                ),
            forall|k: int, c: int|
                0 <= k < new_rows@.len() && l.width() <= c < l.width() + ro@.len() ==> cell_fits(
                    #[trigger] new_rows@[k]@[c],
                    r.types@[ro@[c - l.width()] as int],
                ),
        decreases l.height() - i,
    {
        let ghost row_start = new_rows@;
        let mut matched: bool = false;
        let mut j: usize = 0;
        while j < r.rows.len()
            invariant
                0 <= j <= r.height(),
                0 <= i < l.height(),
                l.wf(),
                r.wf(),
                shared_pairs_ok(l, r, pairs@),
                Seq::new(ro@.len(), |w: int| ro@[w] as int) == ro_spec,
                ro_spec == right_only_idxs(l, r, r.width()),
                forall|w: int| 0 <= w < ro@.len() ==> #[trigger] ro@[w] < r.width(),
                matched == (join_matches_upto(l, r, i as int, j as int).len() != 0),
                Seq::new(new_rows@.len(), |k: int| new_rows@[k]@) == Seq::new(
                    row_start.len(),
                    |k: int| row_start[k]@,
                ) + join_matches_upto(l, r, i as int, j as int),
                forall|k: int|
                    0 <= k < new_rows@.len() ==> #[trigger] new_rows@[k]@.len() == l.width()
                        + ro@.len(),
                forall|k: int, c: int|
                    0 <= k < new_rows@.len() && 0 <= c < l.width() ==> cell_fits(
                        #[trigger] new_rows@[k]@[c],
                        l.types@[c],
                    ),
                forall|k: int, c: int|
                    0 <= k < new_rows@.len() && l.width() <= c < l.width() + ro@.len()
                        ==> cell_fits(
                        #[trigger] new_rows@[k]@[c],
                        r.types@[ro@[c - l.width()] as int],
                    ),
            decreases r.height() - j,
        {
            if rows_match(&l, &r, i, j, &pairs) {
                matched = true;
                let mut nr = clone_row(&l.rows[i]);
                let mut w: usize = 0;
                while w < ro.len()
                    invariant
                        0 <= w <= ro@.len(),
                        l.wf(),
                        r.wf(),
                        0 <= i < l.height(),
                        0 <= j < r.height(),
                        forall|w2: int| 0 <= w2 < ro@.len() ==> #[trigger] ro@[w2] < r.width(),
                        nr@.len() == l.width() + w,
                        forall|c: int| 0 <= c < l.width() ==> #[trigger] nr@[c] == l.rows@[i as int]@[c],
                        forall|c: int|
                            l.width() <= c < l.width() + w ==> #[trigger] nr@[c] == r.rows@[j as int]@[ro@[c - l.width()] as int],
                    decreases ro@.len() - w,
                {
                    nr.push(crate::terms::clone_cell(&r.rows[j][ro[w]]));
                    w = w + 1;
                }
                proof {
                    assert(nr@ =~= joined_row(l, r, i as int, j as int));
                    assert(join_matches_upto(l, r, i as int, j as int + 1) == join_matches_upto(
                        l,
                        r,
                        i as int,
                        j as int,
                    ).push(joined_row(l, r, i as int, j as int)));
                }
                let ghost before = new_rows@;
                let ghost nr_snap = nr;
                new_rows.push(nr);
                proof {
                    let model_start = Seq::new(row_start.len(), |k: int| row_start[k]@);
                    let model_before = Seq::new(before.len(), |k: int| before[k]@);
                    assert(model_before == model_start + join_matches_upto(
                        l,
                        r,
                        i as int,
                        j as int,
                    ));
                    assert(new_rows@ == before.push(nr_snap));
                    assert(Seq::new(new_rows@.len(), |k: int| new_rows@[k]@) =~= model_before.push(
                        nr_snap@,
                    ));
                    assert(nr_snap@ == joined_row(l, r, i as int, j as int));
                    assert(model_start + join_matches_upto(l, r, i as int, j as int + 1)
                        =~= model_before.push(joined_row(l, r, i as int, j as int)));
                    assert(Seq::new(new_rows@.len(), |k: int| new_rows@[k]@) == model_start
                        + join_matches_upto(l, r, i as int, j as int + 1));
                }
            } else {
                proof {
                    assert(join_matches_upto(l, r, i as int, j as int + 1) == join_matches_upto(
                        l,
                        r,
                        i as int,
                        j as int,
                    ));
                }
            }
            j = j + 1;
        }
        if !matched {
            let mut nr = clone_row(&l.rows[i]);
            let mut w: usize = 0;
            while w < ro.len()
                invariant
                    0 <= w <= ro@.len(),
                    l.wf(),
                    0 <= i < l.height(),
                    nr@.len() == l.width() + w,
                    forall|c: int| 0 <= c < l.width() ==> #[trigger] nr@[c] == l.rows@[i as int]@[c],
                    forall|c: int|
                        l.width() <= c < l.width() + w ==> #[trigger] nr@[c] matches Option::None,
                decreases ro@.len() - w,
            {
                nr.push(Option::None);
                w = w + 1;
            }
            proof {
                assert(nr@ =~= null_padded_row(l, r, i as int));
            }
            let ghost before = new_rows@;
            let ghost nr_snap = nr;
            new_rows.push(nr);
            proof {
                let model_start = Seq::new(row_start.len(), |k: int| row_start[k]@);
                let model_before = Seq::new(before.len(), |k: int| before[k]@);
                assert(new_rows@ == before.push(nr_snap));
                assert(Seq::new(new_rows@.len(), |k: int| new_rows@[k]@) =~= model_before.push(
                    nr_snap@,
                ));
                assert(nr_snap@ == null_padded_row(l, r, i as int));
                assert(left_join_model_upto(l, r, i as int + 1) == left_join_model_upto(
                    l,
                    r,
                    i as int,
                ).push(null_padded_row(l, r, i as int)));
                assert(Seq::new(new_rows@.len(), |k: int| new_rows@[k]@) =~= left_join_model_upto(
                    l,
                    r,
                    i as int + 1,
                ));
            }
        } else {
            proof {
                assert(left_join_model_upto(l, r, i as int + 1) == left_join_model_upto(
                    l,
                    r,
                    i as int,
                ) + join_matches_upto(l, r, i as int, r.height()));
            }
        }
        i = i + 1;
    }
    let SolutionMappings { names: mut out_names, types: mut out_types, rows: _l_rows } = l;
    let mut w: usize = 0;
    while w < ro.len()
        invariant
            0 <= w <= ro@.len(),
            l.wf(),
            r.wf(),
            forall|w2: int| 0 <= w2 < ro@.len() ==> #[trigger] ro@[w2] < r.width(),
            out_names@.len() == l.width() + w,
            out_types@.len() == l.width() + w,
            forall|c: int| 0 <= c < l.width() ==> #[trigger] out_names@[c] == l.names@[c],
            forall|c: int| 0 <= c < l.width() ==> #[trigger] out_types@[c] == l.types@[c],
            forall|c: int|
                l.width() <= c < l.width() + w ==> #[trigger] out_names@[c]@ == r.name(
                    ro@[c - l.width()] as int,
                ),
            forall|c: int|
                l.width() <= c < l.width() + w ==> type_clone_ok(
                    #[trigger] out_types@[c],
                    r.types@[ro@[c - l.width()] as int],
                ),
        decreases ro@.len() - w,
    {
        out_names.push(r.names[ro[w]].clone());
        out_types.push(r.types[ro[w]].clone());
        w = w + 1;
    }
    let out = SolutionMappings { names: out_names, types: out_types, rows: new_rows };
    proof {
        lemma_right_only_props(l, r, r.width());
        assert forall|a: int, b: int| 0 <= a < b < out.width() implies out.name(a) != out.name(
            b,
        ) by {
            if b < l.width() {
                assert(out.name(a) == l.name(a));
                assert(out.name(b) == l.name(b));
            } else if a < l.width() {
                assert(out.name(a) == l.name(a));
                assert(out.name(b) == r.name(ro_spec[b - l.width()]));
                assert(!l.has_col(r.name(ro_spec[b - l.width()])));
                assert(l.has_col(l.name(a)));
            } else {
                assert(out.name(a) == r.name(ro_spec[a - l.width()]));
                assert(out.name(b) == r.name(ro_spec[b - l.width()]));
                assert(ro_spec[a - l.width()] < ro_spec[b - l.width()]);
            }
        }
        assert forall|c: int| 0 <= c < out.width() implies type_wf(#[trigger] out.types@[c]) by {
            if c < l.width() {
            } else {
                crate::terms::lemma_type_clone_wf(
                    r.types@[ro_spec[c - l.width()]],
                    out.types@[c],
                );
            }
        }
        assert forall|k: int, c: int|
            0 <= k < out.height() && 0 <= c < out.width() implies cell_fits(
            #[trigger] out.rows@[k]@[c],
            out.types@[c],
        ) by {
            if c < l.width() {
            } else {
                crate::terms::lemma_type_clone_fits(
                    out.rows@[k]@[c],
                    r.types@[ro_spec[c - l.width()]],
                    out.types@[c],
                );
            }
        }
        assert(out.wf());
        assert forall|n: Seq<char>| #[trigger] out.has_col(n) implies (l.has_col(n) || r.has_col(
            n,
        )) by {
            out.lemma_col_index(n);
            let c = out.col_index(n);
            if c < l.width() {
                assert(l.name(c) == n);
            } else {
                assert(r.name(ro_spec[c - l.width()]) == n);
            }
        }
        assert forall|n: Seq<char>| l.has_col(n) implies out.has_col(n) && #[trigger] out.type_at(
            n,
        ) == l.type_at(n) by {
            l.lemma_col_index(n);
            let c = l.col_index(n);
            assert(out.name(c) == n);
            assert(out.has_col(n));
            out.lemma_col_index(n);
            assert(out.col_index(n) == c);
        }
        assert forall|n: Seq<char>| !l.has_col(n) && r.has_col(n) implies out.has_col(n)
            && type_clone_ok(#[trigger] out.type_at(n), r.type_at(n)) by {
            r.lemma_col_index(n);
            let c = r.col_index(n);
            lemma_right_only_covers(l, r, r.width(), c);
            let w2 = choose|w2: int| 0 <= w2 < ro_spec.len() && ro_spec[w2] == c;
            assert(out.name(l.width() + w2) == n);
            assert(out.has_col(n));
            out.lemma_col_index(n);
            assert(out.col_index(n) == l.width() + w2);
        }
        assert forall|n: Seq<char>| (l.has_col(n) || r.has_col(n)) implies #[trigger] out.has_col(
            n,
        ) by {
            if l.has_col(n) {
                l.lemma_col_index(n);
                assert(out.name(l.col_index(n)) == n);
            } else {
                r.lemma_col_index(n);
                let c = r.col_index(n);
                lemma_right_only_covers(l, r, r.width(), c);
                let w2 = choose|w2: int| 0 <= w2 < ro_spec.len() && ro_spec[w2] == c;
                assert(out.name(l.width() + w2) == n);
            }
        }
        assert(rows_model(out) =~= Seq::new(out.rows@.len(), |k: int| out.rows@[k]@));
        assert(rows_model(out) == left_join_model(l, r));
    }
    Result::Ok(out)
}

/// Anti-join.  With no shared column this is, by the semantics of
/// `MINUS`, the left relation unchanged, row for row and in the original
/// order.  Otherwise it keeps exactly the left rows that agree with no
/// right row on all shared columns.
pub fn minus(
    left_solution_mappings: SolutionMappings,
    right_solution_mappings: SolutionMappings,
) -> (res: Result<SolutionMappings, QueryProcessingError>)
    requires
        left_solution_mappings.wf(),
        right_solution_mappings.wf(),
    ensures
        res matches Result::Ok(out) ==> {
            let l = left_solution_mappings;
            let r = right_solution_mappings;
            &&& (!has_shared_col(l, r) ==> out == l)
            &&& out.wf()
            &&& out.names@ == l.names@
            &&& out.types@ == l.types@
            &&& (has_shared_col(l, r) ==> rows_model(out) == minus_model(l, r))
        },
        res matches Result::Ok(_),
{
    let l = left_solution_mappings;
    let r = right_solution_mappings;
    let pairs = shared_cols(&l, &r);
    if pairs.len() == 0 {
        return Result::Ok(l);
    }
    let mut kept: Vec<Vec<Option<Term>>> = Vec::new();
    let mut i: usize = 0;
    while i < l.rows.len()
        invariant
            0 <= i <= l.height(),
            l.wf(),
            r.wf(),
            shared_pairs_ok(l, r, pairs@),
            Seq::new(kept@.len(), |k: int| kept@[k]@) == minus_model_upto(l, r, i as int),
            forall|k: int| 0 <= k < kept@.len() ==> #[trigger] kept@[k]@.len() == l.width(),
            forall|k: int, c: int|
                0 <= k < kept@.len() && 0 <= c < l.width() ==> cell_fits(
                    #[trigger] kept@[k]@[c],
                    l.types@[c],
                ),
        decreases l.height() - i,
    {
        let mut found: bool = false;
        let mut j: usize = 0;
        while j < r.rows.len()
            invariant
                0 <= j <= r.height(),
                0 <= i < l.height(),
                l.wf(),
                r.wf(),
                shared_pairs_ok(l, r, pairs@),
                found == exists|j2: int|
                    0 <= j2 < j && #[trigger] rows_join_match(l, r, i as int, j2),
            decreases r.height() - j,
        {
            if !found {
                if rows_match(&l, &r, i, j, &pairs) {
                    found = true;
                    proof {
                        assert(rows_join_match(l, r, i as int, j as int));
                    }
                }
            } else {
                proof {
                    let j2 = choose|j2: int|
                        0 <= j2 < j && #[trigger] rows_join_match(l, r, i as int, j2);
                    assert(0 <= j2 < j as int + 1 && rows_join_match(l, r, i as int, j2));
                }
            }
            j = j + 1;
        }
        if !found {
            let nr = clone_row(&l.rows[i]);
            kept.push(nr);
        }
        proof {
            assert(Seq::new(kept@.len(), |k: int| kept@[k]@) =~= minus_model_upto(
                l,
                r,
                i as int + 1,
            ));
        }
        i = i + 1;
    }
    let SolutionMappings { names, types, rows: _l_rows } = l;
    let out = SolutionMappings { names, types, rows: kept };
    proof {
        assert(out.names@ == l.names@);
        assert forall|a: int, b: int| 0 <= a < b < out.width() implies out.name(a) != out.name(
            b,
        ) by {
            assert(out.name(a) == l.name(a));
            assert(out.name(b) == l.name(b));
        }
        assert(out.wf());
        assert(rows_model(out) =~= Seq::new(out.rows@.len(), |k: int| out.rows@[k]@));
        assert(rows_model(out) == minus_model(l, r));
    }
    Result::Ok(out)
}

/// Union with multi-type reconciliation.  The output schema is the union
/// of both sides' columns; a column present on one side only is unbound
/// on the other side's rows.  For a column present on both sides the
/// recorded type becomes the sorted union of both sides' concrete types
/// (collapsed to the single type when both sides agree), and every row
/// keeps its own side's value under its own concrete type: left rows
/// first, then right rows, with no value ever crossing between the
/// constituent types.
pub fn union(
    left_solution_mappings: SolutionMappings,
    right_solution_mappings: SolutionMappings,
) -> (res: Result<SolutionMappings, QueryProcessingError>)
    requires
        left_solution_mappings.wf(),
        right_solution_mappings.wf(),
    ensures
        res matches Result::Ok(out) ==> {
            let l = left_solution_mappings;
            let r = right_solution_mappings;
            &&& out.wf()
            &&& out.height() == l.height() + r.height()
            &&& forall|n: Seq<char>| #[trigger] out.has_col(n) <==> (l.has_col(n) || r.has_col(n))
            &&& forall|n: Seq<char>|
                l.has_col(n) && !r.has_col(n) ==> type_clone_ok(#[trigger] out.type_at(n), l.type_at(n))
            &&& forall|n: Seq<char>|
                !l.has_col(n) && r.has_col(n) ==> type_clone_ok(#[trigger] out.type_at(n), r.type_at(n))
            &&& forall|n: Seq<char>|
                l.has_col(n) && r.has_col(n) ==> crate::multitype::merged_type_ok(
                    #[trigger] out.type_at(n),
                    l.type_at(n),
                    r.type_at(n),
                )
            &&& forall|i: int, n: Seq<char>|
                0 <= i < l.height() && #[trigger] out.has_col(n) ==> #[trigger] out.cell_at(i, n)
                    == (if l.has_col(n) {
                    l.cell_at(i, n)
                } else {
                    Option::None
                })
            &&& forall|i: int, n: Seq<char>|
                l.height() <= i < out.height() && #[trigger] out.has_col(n) ==> #[trigger] out.cell_at(
                    i,
                    n,
                ) == (if r.has_col(n) {
                    r.cell_at(i - l.height(), n)
                } else {
                    Option::None
                })
        },
        res matches Result::Ok(_),
{
    let l = left_solution_mappings;
    let r = right_solution_mappings;
    // for each left column, the matching right column
    let mut rmap: Vec<Option<usize>> = Vec::new();
    let mut jl: usize = 0;
    while jl < l.names.len()
        invariant
            0 <= jl <= l.width(),
            l.wf(),
            r.wf(),
            rmap@.len() == jl,
            forall|c: int|
                0 <= c < jl ==> match #[trigger] rmap@[c] {
                    Option::Some(jr) => 0 <= jr < r.width() && r.name(jr as int) == l.name(c),
                    Option::None => !r.has_col(l.name(c)),
                },
        decreases l.width() - jl,
    {
        rmap.push(find_col(&r, &l.names[jl]));
        jl = jl + 1;
    }
    // the right-only columns
    let mut ro: Vec<usize> = Vec::new();
    let mut jr: usize = 0;
    while jr < r.names.len()
        invariant
            0 <= jr <= r.width(),
            l.wf(),
            r.wf(),
            Seq::new(ro@.len(), |w: int| ro@[w] as int) == right_only_idxs(l, r, jr as int),
            forall|w: int| 0 <= w < ro@.len() ==> #[trigger] ro@[w] < r.width(),
        decreases r.width() - jr,
    {
        match find_col(&l, &r.names[jr]) {
            Option::Some(_) => {
                proof {
                    assert(Seq::new(ro@.len(), |w: int| ro@[w] as int) =~= right_only_idxs(
                        l,
                        r,
                        jr as int + 1,
                    ));
                }
            },
            Option::None => {
                ro.push(jr);
                proof {
                    assert(Seq::new(ro@.len(), |w: int| ro@[w] as int) =~= right_only_idxs(
                        l,
                        r,
                        jr as int + 1,
                    ));
                }
            },
        }
        jr = jr + 1;
    }
    let ghost ro_spec = right_only_idxs(l, r, r.width());
    proof {
        assert(Seq::new(ro@.len(), |w: int| ro@[w] as int) == ro_spec);
        lemma_right_only_props(l, r, r.width());
    }
    // reconciled schema
    let mut out_names: Vec<String> = Vec::new();
    let mut out_types: Vec<RDFNodeType> = Vec::new();
    let mut c: usize = 0;
    while c < l.names.len()
        invariant
            0 <= c <= l.width(),
            l.wf(),
            r.wf(),
            rmap@.len() == l.width(),
            forall|c2: int|
                0 <= c2 < l.width() ==> match #[trigger] rmap@[c2] {
                    Option::Some(jr2) => 0 <= jr2 < r.width() && r.name(jr2 as int) == l.name(c2),
                    Option::None => !r.has_col(l.name(c2)),
                },
            out_names@.len() == c,
            out_types@.len() == c,
            forall|c2: int| 0 <= c2 < c ==> #[trigger] out_names@[c2]@ == l.name(c2),
            forall|c2: int|
                0 <= c2 < c ==> match rmap@[c2] {
                    Option::Some(jr2) => crate::multitype::merged_type_ok(
                        #[trigger] out_types@[c2],
                        l.types@[c2],
                        r.types@[jr2 as int],
                    ),
                    Option::None => type_clone_ok(#[trigger] out_types@[c2], l.types@[c2]),
                },
        decreases l.width() - c,
    {
        out_names.push(l.names[c].clone());
        match &rmap[c] {
            Option::Some(jr2) => {
                out_types.push(crate::multitype::merge_types(&l.types[c], &r.types[*jr2]));
            },
            Option::None => {
                out_types.push(l.types[c].clone());
            },
        }
        c = c + 1;
    }
    let mut w: usize = 0;
    while w < ro.len()
        invariant
            0 <= w <= ro@.len(),
            l.wf(),
            r.wf(),
            forall|w2: int| 0 <= w2 < ro@.len() ==> #[trigger] ro@[w2] < r.width(),
            out_names@.len() == l.width() + w,
            out_types@.len() == l.width() + w,
            forall|c2: int| 0 <= c2 < l.width() ==> #[trigger] out_names@[c2]@ == l.name(c2),
            forall|c2: int|
                0 <= c2 < l.width() ==> match rmap@[c2] {
                    Option::Some(jr2) => crate::multitype::merged_type_ok(
                        #[trigger] out_types@[c2],
                        l.types@[c2],
                        r.types@[jr2 as int],
                    ),
                    Option::None => type_clone_ok(#[trigger] out_types@[c2], l.types@[c2]),
                },
            rmap@.len() == l.width(),
            forall|c2: int|
                0 <= c2 < l.width() ==> match #[trigger] rmap@[c2] {
                    Option::Some(jr2) => 0 <= jr2 < r.width() && r.name(jr2 as int) == l.name(c2),
                    Option::None => !r.has_col(l.name(c2)),
                },
            forall|c2: int|
                l.width() <= c2 < l.width() + w ==> #[trigger] out_names@[c2]@ == r.name(
                    ro@[c2 - l.width()] as int,
                ),
            forall|c2: int|
                l.width() <= c2 < l.width() + w ==> type_clone_ok(
                    #[trigger] out_types@[c2],
                    r.types@[ro@[c2 - l.width()] as int],
                ),
        decreases ro@.len() - w,
    {
        out_names.push(r.names[ro[w]].clone());
        out_types.push(r.types[ro[w]].clone());
        w = w + 1;
    }
    // rows: left rows padded, then right rows remapped
    let width_out: usize = out_names.len();
    let mut new_rows: Vec<Vec<Option<Term>>> = Vec::new();
    let mut i: usize = 0;
    while i < l.rows.len()
        invariant
            0 <= i <= l.height(),
            l.wf(),
            width_out == l.width() + ro@.len(),
            new_rows@.len() == i,
            forall|k: int| 0 <= k < i ==> #[trigger] new_rows@[k]@.len() == width_out,
            forall|k: int, c2: int|
                0 <= k < i && 0 <= c2 < l.width() ==> #[trigger] new_rows@[k]@[c2] == l.rows@[k]@[c2],
            forall|k: int, c2: int|
                0 <= k < i && l.width() <= c2 < width_out ==> #[trigger] new_rows@[k]@[c2] matches
                    Option::None,
        decreases l.height() - i,
    {
        let mut nr = clone_row(&l.rows[i]);
        let mut w2: usize = 0;
        while w2 < ro.len()
            invariant
                0 <= w2 <= ro@.len(),
                l.wf(),
                0 <= i < l.height(),
                nr@.len() == l.width() + w2,
                forall|c2: int| 0 <= c2 < l.width() ==> #[trigger] nr@[c2] == l.rows@[i as int]@[c2],
                forall|c2: int|
                    l.width() <= c2 < l.width() + w2 ==> #[trigger] nr@[c2] matches Option::None,
            decreases ro@.len() - w2,
        {
            nr.push(Option::None);
            w2 = w2 + 1;
        }
        new_rows.push(nr);
        i = i + 1;
    }
    let mut k2: usize = 0;
    while k2 < r.rows.len()
        invariant
            0 <= k2 <= r.height(),
            l.wf(),
            r.wf(),
            width_out == l.width() + ro@.len(),
            rmap@.len() == l.width(),
            forall|c2: int|
                0 <= c2 < l.width() ==> match #[trigger] rmap@[c2] {
                    Option::Some(jr2) => 0 <= jr2 < r.width() && r.name(jr2 as int) == l.name(c2),
                    Option::None => !r.has_col(l.name(c2)),
                },
            forall|w2: int| 0 <= w2 < ro@.len() ==> #[trigger] ro@[w2] < r.width(),
            new_rows@.len() == l.height() + k2,
            forall|k: int|
                0 <= k < new_rows@.len() ==> #[trigger] new_rows@[k]@.len() == width_out,
            forall|k: int, c2: int|
                0 <= k < l.height() && 0 <= c2 < l.width() ==> #[trigger] new_rows@[k]@[c2] == l.rows@[k]@[c2],
            forall|k: int, c2: int|
                0 <= k < l.height() && l.width() <= c2 < width_out ==> #[trigger] new_rows@[k]@[c2]
                    matches Option::None,
            forall|k: int, c2: int|
                l.height() <= k < new_rows@.len() && 0 <= c2 < l.width()
                    ==> #[trigger] new_rows@[k]@[c2] == (match rmap@[c2] {
                    Option::Some(jr2) => r.rows@[k - l.height()]@[jr2 as int],
                    Option::None => Option::None,
                }),
            forall|k: int, c2: int|
                l.height() <= k < new_rows@.len() && l.width() <= c2 < width_out
                    ==> #[trigger] new_rows@[k]@[c2] == r.rows@[k - l.height()]@[ro@[c2 - l.width()] as int],
        decreases r.height() - k2,
    {
        let mut nr: Vec<Option<Term>> = Vec::new();
        let mut c2: usize = 0;
        while c2 < rmap.len()
            invariant
                0 <= c2 <= l.width(),
                l.wf(),
                r.wf(),
                0 <= k2 < r.height(),
                rmap@.len() == l.width(),
                forall|c3: int|
                    0 <= c3 < l.width() ==> match #[trigger] rmap@[c3] {
                        Option::Some(jr2) => 0 <= jr2 < r.width() && r.name(jr2 as int) == l.name(
                            c3,
                        ),
                        Option::None => !r.has_col(l.name(c3)),
                    },
                nr@.len() == c2,
                forall|c3: int|
                    0 <= c3 < c2 ==> #[trigger] nr@[c3] == (match rmap@[c3] {
                        Option::Some(jr2) => r.rows@[k2 as int]@[jr2 as int],
                        Option::None => Option::None,
                    }),
            decreases l.width() - c2,
        {
            match &rmap[c2] {
                Option::Some(jr2) => {
                    nr.push(crate::terms::clone_cell(&r.rows[k2][*jr2]));
                },
                Option::None => {
                    nr.push(Option::None);
                },
            }
            c2 = c2 + 1;
        }
        let mut w2: usize = 0;
        while w2 < ro.len()
            invariant
                0 <= w2 <= ro@.len(),
                l.wf(),
                r.wf(),
                0 <= k2 < r.height(),
                rmap@.len() == l.width(),
                forall|w3: int| 0 <= w3 < ro@.len() ==> #[trigger] ro@[w3] < r.width(),
                nr@.len() == l.width() + w2,
                forall|c3: int|
                    0 <= c3 < l.width() ==> #[trigger] nr@[c3] == (match rmap@[c3] {
                        Option::Some(jr2) => r.rows@[k2 as int]@[jr2 as int],
                        Option::None => Option::None,
                    }),
                forall|c3: int|
                    l.width() <= c3 < l.width() + w2 ==> #[trigger] nr@[c3] == r.rows@[k2 as int]@[ro@[c3 - l.width()] as int],
            decreases ro@.len() - w2,
        {
            nr.push(crate::terms::clone_cell(&r.rows[k2][ro[w2]]));
            w2 = w2 + 1;
        }
        new_rows.push(nr);
        k2 = k2 + 1;
    }
    let out = SolutionMappings { names: out_names, types: out_types, rows: new_rows };
    proof {
        // distinct names
        assert forall|a: int, b: int| 0 <= a < b < out.width() implies out.name(a) != out.name(
            b,
        ) by {
            if b < l.width() {
                assert(out.name(a) == l.name(a));
                assert(out.name(b) == l.name(b));
            } else if a < l.width() {
                assert(out.name(a) == l.name(a));
                assert(out.name(b) == r.name(ro_spec[b - l.width()]));
                assert(!l.has_col(r.name(ro_spec[b - l.width()])));
                assert(l.has_col(l.name(a)));
            } else {
                assert(out.name(a) == r.name(ro_spec[a - l.width()]));
                assert(out.name(b) == r.name(ro_spec[b - l.width()]));
                assert(ro_spec[a - l.width()] < ro_spec[b - l.width()]);
            }
        }
        assert forall|c2: int| 0 <= c2 < out.width() implies type_wf(
            #[trigger] out.types@[c2],
        ) by {
            if c2 < l.width() {
                match rmap@[c2] {
                    Option::Some(_) => {},
                    Option::None => {
                        crate::terms::lemma_type_clone_wf(l.types@[c2], out.types@[c2]);
                    },
                }
            } else {
                crate::terms::lemma_type_clone_wf(
                    r.types@[ro_spec[c2 - l.width()]],
                    out.types@[c2],
                );
            }
        }
        assert forall|k: int, c2: int|
            0 <= k < out.height() && 0 <= c2 < out.width() implies cell_fits(
            #[trigger] out.rows@[k]@[c2],
            out.types@[c2],
        ) by {
            if k < l.height() {
                if c2 < l.width() {
                    assert(cell_fits(l.rows@[k]@[c2], l.types@[c2]));
                    match rmap@[c2] {
                        Option::Some(jr2) => {
                            lemma_fits_merged_left(
                                out.rows@[k]@[c2],
                                l.types@[c2],
                                r.types@[jr2 as int],
                                out.types@[c2],
                            );
                        },
                        Option::None => {
                            crate::terms::lemma_type_clone_fits(
                                out.rows@[k]@[c2],
                                l.types@[c2],
                                out.types@[c2],
                            );
                        },
                    }
                }
            } else {
                if c2 < l.width() {
                    match rmap@[c2] {
                        Option::Some(jr2) => {
                            assert(cell_fits(
                                r.rows@[k - l.height()]@[jr2 as int],
                                r.types@[jr2 as int],
                            ));
                            lemma_fits_merged_right(
                                out.rows@[k]@[c2],
                                l.types@[c2],
                                r.types@[jr2 as int],
                                out.types@[c2],
                            );
                        },
                        Option::None => {},
                    }
                } else {
                    assert(cell_fits(
                        r.rows@[k - l.height()]@[ro_spec[c2 - l.width()]],
                        r.types@[ro_spec[c2 - l.width()]],
                    ));
                    crate::terms::lemma_type_clone_fits(
                        out.rows@[k]@[c2],
                        r.types@[ro_spec[c2 - l.width()]],
                        out.types@[c2],
                    );
                }
            }
        }
        assert(out.wf());
        // schema clauses
        assert forall|n: Seq<char>| #[trigger] out.has_col(n) implies (l.has_col(n) || r.has_col(
            n,
        )) by {
            out.lemma_col_index(n);
            let c2 = out.col_index(n);
            if c2 < l.width() {
                assert(l.name(c2) == n);
            } else {
                assert(r.name(ro_spec[c2 - l.width()]) == n);
            }
        }
        assert forall|n: Seq<char>| (l.has_col(n) || r.has_col(n)) implies #[trigger] out.has_col(
            n,
        ) by {
            if l.has_col(n) {
                l.lemma_col_index(n);
                assert(out.name(l.col_index(n)) == n);
            } else {
                r.lemma_col_index(n);
                let c2 = r.col_index(n);
                lemma_right_only_covers(l, r, r.width(), c2);
                let w2 = choose|w2: int| 0 <= w2 < ro_spec.len() && ro_spec[w2] == c2;
                assert(out.name(l.width() + w2) == n);
            }
        }
        assert forall|n: Seq<char>| l.has_col(n) implies #[trigger] out.col_index(n)
            == l.col_index(n) by {
            l.lemma_col_index(n);
            let c2 = l.col_index(n);
            assert(out.name(c2) == n);
            out.lemma_col_index(n);
        }
        assert forall|n: Seq<char>| !l.has_col(n) && r.has_col(n) implies #[trigger] out.col_index(
            n,
        ) == l.width() + (choose|w2: int|
            0 <= w2 < ro_spec.len() && ro_spec[w2] == r.col_index(n)) by {
            r.lemma_col_index(n);
            let c2 = r.col_index(n);
            lemma_right_only_covers(l, r, r.width(), c2);
            let w2 = choose|w2: int| 0 <= w2 < ro_spec.len() && ro_spec[w2] == c2;
            assert(out.name(l.width() + w2) == n);
            out.lemma_col_index(n);
        }
        // type clauses
        assert forall|n: Seq<char>| l.has_col(n) && !r.has_col(n) implies type_clone_ok(
            #[trigger] out.type_at(n),
            l.type_at(n),
        ) by {
            l.lemma_col_index(n);
            let c2 = l.col_index(n);
            assert(out.col_index(n) == c2);
            match rmap@[c2] {
                Option::Some(jr2) => {
                    assert(r.has_col(n)) by {
                        assert(r.name(jr2 as int) == n);
                    }
                },
                Option::None => {},
            }
        }
        assert forall|n: Seq<char>| l.has_col(n) && r.has_col(n) implies
            crate::multitype::merged_type_ok(
            #[trigger] out.type_at(n),
            l.type_at(n),
            r.type_at(n),
        ) by {
            l.lemma_col_index(n);
            r.lemma_col_index(n);
            let c2 = l.col_index(n);
            assert(out.col_index(n) == c2);
            match rmap@[c2] {
                Option::Some(jr2) => {
                    assert(r.name(jr2 as int) == n);
                    assert(r.col_index(n) == jr2 as int);
                },
                Option::None => {
                    assert(!r.has_col(l.name(c2)));
                },
            }
        }
        assert forall|n: Seq<char>| !l.has_col(n) && r.has_col(n) implies type_clone_ok(
            #[trigger] out.type_at(n),
            r.type_at(n),
        ) by {
            r.lemma_col_index(n);
            let c2 = r.col_index(n);
            lemma_right_only_covers(l, r, r.width(), c2);
            let w2 = choose|w2: int| 0 <= w2 < ro_spec.len() && ro_spec[w2] == c2;
            assert(out.col_index(n) == l.width() + w2);
            assert(ro_spec[w2] == c2);
        }
        // cell clauses
        assert forall|i2: int, n: Seq<char>|
            0 <= i2 < l.height() && #[trigger] out.has_col(n) implies #[trigger] out.cell_at(
            i2,
            n,
        ) == (if l.has_col(n) {
            l.cell_at(i2, n)
        } else {
            Option::None
        }) by {
            out.lemma_col_index(n);
            let c2 = out.col_index(n);
            if l.has_col(n) {
                l.lemma_col_index(n);
                assert(c2 == l.col_index(n));
            } else {
                assert(c2 >= l.width());
            }
        }
        assert forall|i2: int, n: Seq<char>|
            l.height() <= i2 < out.height() && #[trigger] out.has_col(n) implies #[trigger] out.cell_at(
            i2,
            n,
        ) == (if r.has_col(n) {
            r.cell_at(i2 - l.height(), n)
        } else {
            Option::None
        }) by {
            out.lemma_col_index(n);
            let c2 = out.col_index(n);
            if c2 < l.width() {
                l.lemma_col_index(n);
                assert(c2 == l.col_index(n));
                match rmap@[c2] {
                    Option::Some(jr2) => {
                        assert(r.name(jr2 as int) == n);
                        r.lemma_col_index(n);
                        assert(r.col_index(n) == jr2 as int);
                        assert(r.has_col(n));
                    },
                    Option::None => {
                        assert(!r.has_col(n));
                    },
                }
            } else {
                let w2 = c2 - l.width();
                assert(r.name(ro_spec[w2]) == n);
                r.lemma_col_index(n);
                assert(r.col_index(n) == ro_spec[w2]);
                assert(r.has_col(n));
            }
        }
    }
    Result::Ok(out)
}

proof fn lemma_fits_merged_left(
    c: Option<Term>,
    lt: RDFNodeType,
    rt: RDFNodeType,
    ot: RDFNodeType,
)
    requires
        cell_fits(c, lt),
        crate::multitype::merged_type_ok(ot, lt, rt),
    ensures
        cell_fits(c, ot),
{
}

proof fn lemma_fits_merged_right(
    c: Option<Term>,
    lt: RDFNodeType,
    rt: RDFNodeType,
    ot: RDFNodeType,
)
    requires
        cell_fits(c, rt),
        crate::multitype::merged_type_ok(ot, lt, rt),
    ensures
        cell_fits(c, ot),
{
}

/// Prepares the grouping key columns.  With no grouping variables the
/// aggregation is global: a fresh, uniquely named constant boolean column
/// is synthesized to group on, and its name is returned so that
/// `group_by` can drop it from the final output.
pub fn prepare_group_by(sm: SolutionMappings, variables: &Vec<Variable>) -> (res: (
    SolutionMappings,
    Vec<String>,
    Option<String>,
))
    requires
        sm.wf(),
    ensures
        res.0.wf(),
        variables@.len() == 0 ==> {
            &&& res.2 matches Option::Some(d) && !sm.has_col(d@) && res.1@.len() == 1
                && res.1@[0]@ == d@
            &&& crate::expressions::compiles_to(sm, res.0, Seq::empty(), res.1@[0]@)
            &&& (res.0.type_at(res.1@[0]@) matches RDFNodeType::Literal(dd) && dd@
                == crate::terms::xsd_boolean_iri())
            &&& forall|i: int|
                0 <= i < sm.height() ==> cell_v(#[trigger] res.0.cell_at(i, res.1@[0]@))
                    == crate::eval::lit_bool_v(true)
        },
        variables@.len() > 0 ==> {
            &&& res.0 == sm
            &&& res.2 matches Option::None
            &&& res.1@.len() == variables@.len()
            &&& forall|k: int| 0 <= k < variables@.len() ==> #[trigger] res.1@[k]@
                == variables@[k]@
        },
{
    if variables.len() == 0 {
        let dummy = crate::unique_id::fresh_column_name(&sm);
        let typ = RDFNodeType::Literal(crate::terms::xsd_boolean());
        let mut cells: Vec<Option<Term>> = Vec::new();
        let mut i: usize = 0;
        while i < sm.rows.len()
            invariant
                0 <= i <= sm.height(),
                typ matches RDFNodeType::Literal(dd) && dd@ == crate::terms::xsd_boolean_iri(),
                cells@.len() == i,
                forall|k: int|
                    0 <= k < i ==> cell_v(#[trigger] cells@[k]) == crate::eval::lit_bool_v(true)
                        && cell_fits(cells@[k], typ),
            decreases sm.height() - i,
        {
            let t = crate::eval::bool_term(true);
            proof {
                assert(crate::terms::base_same(
                    crate::terms::base_of(t),
                    crate::terms::base_of_type(typ),
                ));
            }
            cells.push(Option::Some(t));
            i = i + 1;
        }
        let name_s = dummy.clone();
        let out = crate::solution_mapping::push_column(sm, name_s, typ, cells);
        let mut by: Vec<String> = Vec::new();
        by.push(dummy.clone());
        proof {
            assert(forall|n: Seq<char>| !Seq::<Seq<char>>::empty().contains(n));
            assert(crate::expressions::compiles_to(sm, out, Seq::empty(), dummy@));
            assert(out.type_at(dummy@) == typ);
            assert forall|i2: int| 0 <= i2 < sm.height() implies cell_v(
                #[trigger] out.cell_at(i2, dummy@),
            ) == crate::eval::lit_bool_v(true) by {
                assert(out.cell_at(i2, dummy@) == cells@[i2]);
            }
        }
        (out, by, Option::Some(dummy))
    } else {
        let mut by: Vec<String> = Vec::new();
        let mut k: usize = 0;
        while k < variables.len()
            invariant
                0 <= k <= variables@.len(),
                by@.len() == k,
                forall|w: int| 0 <= w < k ==> #[trigger] by@[w]@ == variables@[w]@,
            decreases variables@.len() - k,
        {
            by.push(variables[k].name.clone());
            k = k + 1;
        }
        (sm, by, Option::None)
    }
}

/// The grouping key of row `i`: its cells in the key columns, in order.
pub open spec fn key_of(sm: SolutionMappings, i: int, keys: Seq<int>) -> Seq<Option<Term>> {
    Seq::new(keys.len(), |w: int| sm.rows@[i]@[keys[w]])
}

/// The grouping keys of all rows.
pub open spec fn keys_model(sm: SolutionMappings, keys: Seq<int>) -> Seq<Seq<Option<Term>>> {
    Seq::new(sm.height() as nat, |i: int| key_of(sm, i, keys))
}

/// The cells of column `c` over the rows of the group with key `kk`,
/// among the first `upto` rows, in row order.
pub open spec fn group_col(
    sm: SolutionMappings,
    keys: Seq<int>,
    kk: Seq<Option<Term>>,
    c: int,
    upto: int,
) -> Seq<Option<TermV>>
    decreases upto,
{
    if upto <= 0 {
        Seq::empty()
    } else {
        let prefix = group_col(sm, keys, kk, c, upto - 1);
        if row_same(key_of(sm, upto - 1, keys), kk) {
            prefix.push(cell_v(sm.rows@[upto - 1]@[c]))
        } else {
            prefix
        }
    }
}

/// The number of bound cells.
pub open spec fn agg_count(cs: Seq<Option<TermV>>) -> int
    decreases cs.len(),
{
    if cs.len() == 0 {
        0
    } else {
        agg_count(cs.drop_last()) + (if cs.last() matches Option::Some(_) {
            1int
        } else {
            0int
        })
    }
}

/// The integer sum of the bound cells; undefined when a bound cell is
/// not an integer literal.  Unbound cells are skipped.
pub open spec fn agg_sum(cs: Seq<Option<TermV>>) -> Option<int>
    decreases cs.len(),
{
    if cs.len() == 0 {
        Option::Some(0int)
    } else {
        match agg_sum(cs.drop_last()) {
            Option::Some(acc) => match cs.last() {
                Option::None => Option::Some(acc),
                Option::Some(TermV::Lit(_, LitV::I(n))) => Option::Some(acc + n),
                Option::Some(_) => Option::None,
            },
            Option::None => Option::None,
        }
    }
}

/// The first minimal bound cell under the value order; a later cell
/// replaces the current one only when strictly below it.
pub open spec fn fold_min(cs: Seq<Option<TermV>>) -> Option<TermV>
    decreases cs.len(),
{
    if cs.len() == 0 {
        Option::None
    } else {
        let p = fold_min(cs.drop_last());
        match cs.last() {
            Option::None => p,
            Option::Some(v) => match p {
                Option::None => Option::Some(v),
                Option::Some(a) => if crate::eval::val_lt(v, a) {
                    Option::Some(v)
                } else {
                    p
                },
            },
        }
    }
}

/// The first maximal bound cell under the value order.
pub open spec fn fold_max(cs: Seq<Option<TermV>>) -> Option<TermV>
    decreases cs.len(),
{
    if cs.len() == 0 {
        Option::None
    } else {
        let p = fold_max(cs.drop_last());
        match cs.last() {
            Option::None => p,
            Option::Some(v) => match p {
                Option::None => Option::Some(v),
                Option::Some(a) => if crate::eval::val_lt(a, v) {
                    Option::Some(v)
                } else {
                    p
                },
            },
        }
    }
}

/// The value of one aggregate over one group's cells, before it is
/// fitted to the caller-declared output type.
pub open spec fn agg_value(op: AggregateOp, cs: Seq<Option<TermV>>) -> Option<TermV> {
    match op {
        AggregateOp::Count => crate::functions::int_cell(agg_count(cs)),
        AggregateOp::Sum => match agg_sum(cs) {
            Option::Some(s) => crate::functions::int_cell(s),
            Option::None => Option::None,
        },
        AggregateOp::Min => fold_min(cs),
        AggregateOp::Max => fold_max(cs),
        AggregateOp::Sample => crate::eval::eval_coalesce(cs),
    }
}

/// The first type entry recorded for the output column named `n`.
pub open spec fn assoc_type(entries: Seq<(String, RDFNodeType)>, n: Seq<char>) -> RDFNodeType
    decreases entries.len(),
{
    if entries.len() == 0 {
        RDFNodeType::IRI
    } else if entries[0].0@ == n {
        entries[0].1
    } else {
        assoc_type(entries.skip(1), n)
    }
}

/// Some type entry is recorded for the output column named `n`.
pub open spec fn assoc_has(entries: Seq<(String, RDFNodeType)>, n: Seq<char>) -> bool {
    exists|k: int| 0 <= k < entries.len() && (#[trigger] entries[k]).0@ == n
}

/// Looks up the first type entry for `n`.
fn lookup_type(entries: &Vec<(String, RDFNodeType)>, n: &String) -> (r: Option<RDFNodeType>)
    ensures
        match r {
            Option::Some(t) => assoc_has(entries@, n@) && type_clone_ok(t, assoc_type(entries@, n@)),
            Option::None => !assoc_has(entries@, n@),
        },
{
    let mut k: usize = 0;
    proof {
        assert(entries@.skip(0) =~= entries@);
    }
    while k < entries.len()
        invariant
            0 <= k <= entries@.len(),
            forall|w: int| 0 <= w < k ==> (#[trigger] entries@[w]).0@ != n@,
            assoc_type(entries@, n@) == assoc_type(entries@.skip(k as int), n@),
        decreases entries@.len() - k,
    {
        if crate::text::str_eq(&entries[k].0, n) {
            let t = entries[k].1.clone();
            proof {
                assert(entries@.skip(k as int)[0] == entries@[k as int]);
                assert(assoc_type(entries@.skip(k as int), n@) == entries@[k as int].1);
            }
            return Option::Some(t);
        }
        proof {
            assert(entries@.skip(k as int)[0] == entries@[k as int]);
            assert(entries@.skip(k as int).skip(1) =~= entries@.skip(k as int + 1));
        }
        k = k + 1;
    }
    Option::None
}

/// Evaluates one aggregate over one group's collected cells.
fn agg_cell(op: AggregateOp, cells: &Vec<Option<Term>>) -> (r: Option<Term>)
    requires
        forall|w: int| 0 <= w < cells@.len() ==> crate::eval::cell_term_wf(#[trigger] cells@[w]),
        cells@.len() < 0x8000_0000_0000_0000,
    ensures
        cell_v(r) == agg_value(op, Seq::new(cells@.len(), |w: int| cell_v(cells@[w]))),
        match r {
            Option::Some(t) => term_wf(t),
            Option::None => true,
        },
{
    let ghost cs = Seq::new(cells@.len(), |w: int| cell_v(cells@[w]));
    match op {
        AggregateOp::Count => {
            let mut cnt: u64 = 0;
            let mut w: usize = 0;
            while w < cells.len()
                invariant
                    0 <= w <= cells@.len(),
                    cells@.len() < 0x8000_0000_0000_0000,
                    cs == Seq::new(cells@.len(), |w2: int| cell_v(cells@[w2])),
                    cnt as int == agg_count(cs.take(w as int)),
                    cnt as int <= w,
                decreases cells@.len() - w,
            {
                proof {
                    assert(cs.take(w as int + 1).drop_last() =~= cs.take(w as int));
                    assert(cs.take(w as int + 1).last() == cs[w as int]);
                }
                if matches!(&cells[w], Option::Some(_)) {
                    cnt = cnt + 1;
                }
                w = w + 1;
            }
            proof {
                assert(cs.take(cells@.len() as int) =~= cs);
            }
            Option::Some(Term::Lit(crate::terms::xsd_integer(), LitValue::I(cnt as i64)))
        },
        AggregateOp::Sum => {
            let mut ok: bool = true;
            let mut acc: i128 = 0;
            let mut w: usize = 0;
            while w < cells.len()
                invariant
                    0 <= w <= cells@.len(),
                    cells@.len() < 0x8000_0000_0000_0000,
                    cs == Seq::new(cells@.len(), |w2: int| cell_v(cells@[w2])),
                    ok ==> agg_sum(cs.take(w as int)) == Option::Some(acc as int),
                    !ok ==> agg_sum(cs.take(w as int)) matches Option::None,
                    -0x8000_0000_0000_0000 * (w as int) <= acc <= 0x8000_0000_0000_0000 * (
                    w as int),
                decreases cells@.len() - w,
            {
                proof {
                    assert(cs.take(w as int + 1).drop_last() =~= cs.take(w as int));
                    assert(cs.take(w as int + 1).last() == cs[w as int]);
                    assert(-0x8000_0000_0000_0000 * (w as int + 1) <= -0x8000_0000_0000_0000 * (
                    w as int) - 0x8000_0000_0000_0000 && 0x8000_0000_0000_0000 * (w as int)
                        + 0x8000_0000_0000_0000 <= 0x8000_0000_0000_0000 * (w as int + 1))
                        by (nonlinear_arith)
                    ;
                }
                if ok {
                    match &cells[w] {
                        Option::None => {},
                        Option::Some(Term::Lit(_, LitValue::I(n))) => {
                            acc = acc + (*n as i128);
                        },
                        Option::Some(_) => {
                            ok = false;
                        },
                    }
                }
                w = w + 1;
            }
            proof {
                assert(cs.take(cells@.len() as int) =~= cs);
            }
            if !ok {
                return Option::None;
            }
            match crate::eval::fit_to_i64(acc) {
                Option::Some(v) => Option::Some(
                    Term::Lit(crate::terms::xsd_integer(), LitValue::I(v)),
                ),
                Option::None => Option::None,
            }
        },
        AggregateOp::Min | AggregateOp::Max => {
            let is_min = matches!(op, AggregateOp::Min);
            let mut acc: Option<Term> = Option::None;
            let mut w: usize = 0;
            while w < cells.len()
                invariant
                    0 <= w <= cells@.len(),
                    is_min == (op matches AggregateOp::Min),
                    op matches AggregateOp::Min || op matches AggregateOp::Max,
                    forall|w2: int|
                        0 <= w2 < cells@.len() ==> crate::eval::cell_term_wf(
                            #[trigger] cells@[w2],
                        ),
                    cs == Seq::new(cells@.len(), |w2: int| cell_v(cells@[w2])),
                    is_min ==> cell_v(acc) == fold_min(cs.take(w as int)),
                    !is_min ==> cell_v(acc) == fold_max(cs.take(w as int)),
                    crate::eval::cell_term_wf(acc),
                decreases cells@.len() - w,
            {
                proof {
                    assert(cs.take(w as int + 1).drop_last() =~= cs.take(w as int));
                    assert(cs.take(w as int + 1).last() == cs[w as int]);
                }
                match &cells[w] {
                    Option::None => {},
                    Option::Some(v) => {
                        match &acc {
                            Option::None => {
                                acc = Option::Some(v.clone());
                            },
                            Option::Some(a) => {
                                let better = if is_min {
                                    crate::eval::exec_val_lt(v, a)
                                } else {
                                    crate::eval::exec_val_lt(a, v)
                                };
                                if better {
                                    acc = Option::Some(v.clone());
                                }
                            },
                        }
                    },
                }
                w = w + 1;
            }
            proof {
                assert(cs.take(cells@.len() as int) =~= cs);
            }
            acc
        },
        AggregateOp::Sample => {
            let mut acc: Option<Term> = Option::None;
            let mut w: usize = 0;
            while w < cells.len()
                invariant
                    0 <= w <= cells@.len(),
                    forall|w2: int|
                        0 <= w2 < cells@.len() ==> crate::eval::cell_term_wf(
                            #[trigger] cells@[w2],
                        ),
                    cs == Seq::new(cells@.len(), |w2: int| cell_v(cells@[w2])),
                    cell_v(acc) == crate::eval::eval_coalesce(cs.take(w as int)),
                    crate::eval::cell_term_wf(acc),
                decreases cells@.len() - w,
            {
                proof {
                    crate::eval::lemma_coalesce_push(cs.take(w as int), cs[w as int]);
                    assert(cs.take(w as int + 1) =~= cs.take(w as int).push(cs[w as int]));
                }
                if matches!(&acc, Option::None) {
                    acc = crate::terms::clone_cell(&cells[w]);
                }
                w = w + 1;
            }
            proof {
                assert(cs.take(cells@.len() as int) =~= cs);
            }
            acc
        },
    }
}

/// Whether grouping keeps the by-column at position `w`: all of them,
/// except a synthesized dummy grouping column.
pub open spec fn by_kept(by: Seq<String>, dummy: Option<String>, w: int) -> bool {
    match dummy {
        Option::Some(d) => by[w]@ != d@,
        Option::None => true,
    }
}

/// Groups by the named key columns and evaluates the aggregates.  The
/// output holds one row per distinct key, in order of first occurrence:
/// its key cells, then one column per aggregate, typed by the
/// caller-supplied type map and unbound where the aggregate's value does
/// not fit that type.  A synthesized dummy grouping column is dropped
/// from the output.
pub fn group_by(
    solution_mappings: SolutionMappings,
    aggregate_expressions: &Vec<AggregateExpression>,
    by: Vec<String>,
    dummy_varname: Option<String>,
    new_rdf_node_types: &Vec<(String, RDFNodeType)>,
) -> (res: Result<SolutionMappings, QueryProcessingError>)
    requires
        solution_mappings.wf(),
        solution_mappings.height() < 0x8000_0000_0000_0000,
        by@.len() > 0,
        forall|w1: int, w2: int|
            0 <= w1 < w2 < by@.len() ==> #[trigger] by@[w1]@ != #[trigger] by@[w2]@,
        forall|w: int| 0 <= w < by@.len() ==> solution_mappings.has_col(#[trigger] by@[w]@),
        forall|a1: int, a2: int|
            0 <= a1 < a2 < aggregate_expressions@.len() ==> (#[trigger] aggregate_expressions@[a1]).output@
                != (#[trigger] aggregate_expressions@[a2]).output@,
        forall|a: int, w: int|
            0 <= a < aggregate_expressions@.len() && 0 <= w < by@.len()
                ==> (#[trigger] aggregate_expressions@[a]).output@ != (#[trigger] by@[w])@,
        forall|a: int|
            0 <= a < aggregate_expressions@.len() ==> solution_mappings.has_col(
                (#[trigger] aggregate_expressions@[a]).input@,
            ),
        forall|a: int|
            0 <= a < aggregate_expressions@.len() ==> assoc_has(
                new_rdf_node_types@,
                (#[trigger] aggregate_expressions@[a]).output@,
            ),
        forall|e: int|
            0 <= e < new_rdf_node_types@.len() ==> type_wf((#[trigger] new_rdf_node_types@[e]).1),
        dummy_varname matches Option::Some(d) ==> exists|w: int|
            0 <= w < by@.len() && (#[trigger] by@[w])@ == d@,
    ensures
        res matches Result::Ok(out) ==> {
            let sm = solution_mappings;
            let keys = Seq::new(by@.len(), |w: int| sm.col_index(by@[w]@));
            let gk = dedup_rows(keys_model(sm, keys));
            &&& out.wf()
            &&& out.height() == gk.len()
            &&& forall|n: Seq<char>| #[trigger]
                out.has_col(n) <==> ((exists|w: int|
                    0 <= w < by@.len() && (#[trigger] by@[w])@ == n && by_kept(
                        by@,
                        dummy_varname,
                        w,
                    )) || (exists|a: int|
                    0 <= a < aggregate_expressions@.len()
                        && (#[trigger] aggregate_expressions@[a]).output@ == n))
            &&& forall|w: int|
                0 <= w < by@.len() && by_kept(by@, dummy_varname, w) ==> type_clone_ok(
                    out.type_at(#[trigger] by@[w]@),
                    sm.type_at(by@[w]@),
                )
            &&& forall|k: int, w: int|
                0 <= k < gk.len() && 0 <= w < by@.len() && by_kept(by@, dummy_varname, w)
                    ==> #[trigger] out.cell_at(k, by@[w]@) == gk[k][w]
            &&& forall|a: int|
                0 <= a < aggregate_expressions@.len() ==> type_clone_ok(
                    out.type_at((#[trigger] aggregate_expressions@[a]).output@),
                    assoc_type(new_rdf_node_types@, aggregate_expressions@[a].output@),
                )
            &&& forall|k: int, a: int|
                0 <= k < gk.len() && 0 <= a < aggregate_expressions@.len() ==> cell_v(
                    #[trigger] out.cell_at(k, (aggregate_expressions@[a]).output@),
                ) == crate::terms::coerce_v(
                    agg_value(
                        aggregate_expressions@[a].op,
                        group_col(
                            sm,
                            keys,
                            gk[k],
                            sm.col_index(aggregate_expressions@[a].input@),
                            sm.height(),
                        ),
                    ),
                    assoc_type(new_rdf_node_types@, aggregate_expressions@[a].output@),
                )
        },
        res matches Result::Ok(_),
{
    let sm = solution_mappings;
    // key column indices
    let ghost keys_spec = Seq::new(by@.len(), |w: int| sm.col_index(by@[w]@));
    let mut keys: Vec<usize> = Vec::new();
    let mut w: usize = 0;
    while w < by.len()
        invariant
            0 <= w <= by@.len(),
            sm.wf(),
            forall|w2: int| 0 <= w2 < by@.len() ==> sm.has_col(#[trigger] by@[w2]@),
            keys@.len() == w,
            forall|w2: int|
                0 <= w2 < w ==> 0 <= #[trigger] keys@[w2] < sm.width() && keys@[w2] as int
                    == sm.col_index(by@[w2]@),
        decreases by@.len() - w,
    {
        match find_col(&sm, &by[w]) {
            Option::Some(j) => {
                proof {
                    sm.lemma_col_index(by@[w as int]@);
                }
                keys.push(j);
            },
            Option::None => {
                proof {
                    assert(false);
                }
                return Result::Err(
                    QueryProcessingError::InternalInvariantViolation(
                        String::from_str("missing grouping column"),
                    ),
                );
            },
        }
        w = w + 1;
    }
    proof {
        assert(Seq::new(keys@.len(), |w2: int| keys@[w2] as int) =~= keys_spec);
    }
    // the key projection of every row
    let mut all_keys: Vec<Vec<Option<Term>>> = Vec::new();
    let mut i: usize = 0;
    while i < sm.rows.len()
        invariant
            0 <= i <= sm.height(),
            sm.wf(),
            keys@.len() == by@.len(),
            forall|w2: int| 0 <= w2 < keys@.len() ==> 0 <= #[trigger] keys@[w2] < sm.width(),
            Seq::new(keys@.len(), |w2: int| keys@[w2] as int) == keys_spec,
            all_keys@.len() == i,
            forall|k: int|
                0 <= k < i ==> #[trigger] all_keys@[k]@ == key_of(sm, k, keys_spec),
        decreases sm.height() - i,
    {
        let mut kr: Vec<Option<Term>> = Vec::new();
        let mut w2: usize = 0;
        while w2 < keys.len()
            invariant
                0 <= w2 <= keys@.len(),
                sm.wf(),
                0 <= i < sm.height(),
                forall|w3: int| 0 <= w3 < keys@.len() ==> 0 <= #[trigger] keys@[w3] < sm.width(),
                kr@.len() == w2,
                forall|w3: int|
                    0 <= w3 < w2 ==> #[trigger] kr@[w3] == sm.rows@[i as int]@[keys@[w3] as int],
            decreases keys@.len() - w2,
        {
            kr.push(crate::terms::clone_cell(&sm.rows[i][keys[w2]]));
            w2 = w2 + 1;
        }
        proof {
            assert(kr@ =~= key_of(sm, i as int, keys_spec));
        }
        all_keys.push(kr);
        i = i + 1;
    }
    // distinct keys, first occurrence first
    let ghost km = keys_model(sm, keys_spec);
    proof {
        assert(Seq::new(all_keys@.len(), |k: int| all_keys@[k]@) =~= km);
    }
    let mut reps: Vec<Vec<Option<Term>>> = Vec::new();
    let mut i2: usize = 0;
    while i2 < all_keys.len()
        invariant
            0 <= i2 <= all_keys@.len(),
            sm.wf(),
            all_keys@.len() == sm.height(),
            keys@.len() == by@.len(),
            forall|w2: int| 0 <= w2 < keys@.len() ==> 0 <= #[trigger] keys@[w2] < sm.width(),
            Seq::new(keys@.len(), |w2: int| keys@[w2] as int) == keys_spec,
            forall|k: int|
                0 <= k < all_keys@.len() ==> #[trigger] all_keys@[k]@ == key_of(sm, k, keys_spec),
            km == keys_model(sm, keys_spec),
            Seq::new(all_keys@.len(), |k: int| all_keys@[k]@) == km,
            Seq::new(reps@.len(), |k: int| reps@[k]@) == dedup_rows(km.take(i2 as int)),
            forall|k: int| 0 <= k < reps@.len() ==> #[trigger] reps@[k]@.len() == by@.len(),
            forall|k: int, w2: int|
                0 <= k < reps@.len() && 0 <= w2 < by@.len() ==> cell_fits(
                    #[trigger] reps@[k]@[w2],
                    sm.types@[keys@[w2] as int],
                ),
        decreases all_keys@.len() - i2,
    {
        let mut seen: bool = false;
        let mut k: usize = 0;
        while k < i2
            invariant
                0 <= k <= i2 < all_keys@.len(),
                seen == exists|q: int|
                    0 <= q < k && row_same(all_keys@[q]@, all_keys@[i2 as int]@),
            decreases i2 - k,
        {
            if !seen {
                if row_eq(&all_keys[k], &all_keys[i2]) {
                    seen = true;
                    proof {
                        assert(row_same(all_keys@[k as int]@, all_keys@[i2 as int]@));
                    }
                }
            } else {
                proof {
                    let q = choose|q: int|
                        0 <= q < k && row_same(all_keys@[q]@, all_keys@[i2 as int]@);
                    assert(0 <= q < k + 1 && row_same(all_keys@[q]@, all_keys@[i2 as int]@));
                }
            }
            k = k + 1;
        }
        proof {
            let pre = km.take(i2 as int);
            let cur = km.take(i2 as int + 1);
            assert(cur.drop_last() =~= pre);
            assert(cur.last() == km[i2 as int]);
            assert(km[i2 as int] == all_keys@[i2 as int]@);
            assert(seen == exists|q: int| 0 <= q < cur.len() - 1 && row_same(cur[q], cur.last()))
                by {
                if seen {
                    let q = choose|q: int|
                        0 <= q < i2 as int && row_same(all_keys@[q]@, all_keys@[i2 as int]@);
                    assert(cur[q] == all_keys@[q]@);
                } else {
                    if exists|q: int| 0 <= q < cur.len() - 1 && row_same(cur[q], cur.last()) {
                        let q = choose|q: int|
                            0 <= q < cur.len() - 1 && row_same(cur[q], cur.last());
                        assert(all_keys@[q]@ == cur[q]);
                    }
                }
            }
        }
        if !seen {
            let nr = clone_row(&all_keys[i2]);
            proof {
                assert(nr@ == key_of(sm, i2 as int, keys_spec));
                assert forall|w2: int| 0 <= w2 < by@.len() implies cell_fits(
                    #[trigger] nr@[w2],
                    sm.types@[keys@[w2] as int],
                ) by {
                    assert(nr@[w2] == sm.rows@[i2 as int]@[keys_spec[w2]]);
                }
            }
            reps.push(nr);
        }
        proof {
            assert(Seq::new(reps@.len(), |k2: int| reps@[k2]@) =~= dedup_rows(
                km.take(i2 as int + 1),
            ));
        }
        i2 = i2 + 1;
    }
    proof {
        assert(km.take(sm.height()) =~= km);
    }
    let ghost gk = dedup_rows(km);
    proof {
        assert(Seq::new(reps@.len(), |k: int| reps@[k]@) == gk);
    }
    // aggregate input indices and output types
    let mut agg_idx: Vec<usize> = Vec::new();
    let mut agg_typ: Vec<RDFNodeType> = Vec::new();
    let mut a: usize = 0;
    while a < aggregate_expressions.len()
        invariant
            0 <= a <= aggregate_expressions@.len(),
            sm.wf(),
            forall|a2: int|
                0 <= a2 < aggregate_expressions@.len() ==> sm.has_col(
                    (#[trigger] aggregate_expressions@[a2]).input@,
                ),
            forall|a2: int|
                0 <= a2 < aggregate_expressions@.len() ==> assoc_has(
                    new_rdf_node_types@,
                    (#[trigger] aggregate_expressions@[a2]).output@,
                ),
            forall|e: int|
                0 <= e < new_rdf_node_types@.len() ==> type_wf(
                    (#[trigger] new_rdf_node_types@[e]).1,
                ),
            agg_idx@.len() == a,
            agg_typ@.len() == a,
            forall|a2: int|
                0 <= a2 < a ==> 0 <= #[trigger] agg_idx@[a2] < sm.width() && agg_idx@[a2] as int
                    == sm.col_index(aggregate_expressions@[a2].input@),
            forall|a2: int|
                0 <= a2 < a ==> type_clone_ok(
                    #[trigger] agg_typ@[a2],
                    assoc_type(new_rdf_node_types@, aggregate_expressions@[a2].output@),
                ) && type_wf(agg_typ@[a2]),
        decreases aggregate_expressions@.len() - a,
    {
        match find_col(&sm, &aggregate_expressions[a].input) {
            Option::Some(j) => {
                proof {
                    sm.lemma_col_index(aggregate_expressions@[a as int].input@);
                }
                agg_idx.push(j);
            },
            Option::None => {
                proof {
                    assert(false);
                }
                return Result::Err(
                    QueryProcessingError::InternalInvariantViolation(
                        String::from_str("missing aggregate input column"),
                    ),
                );
            },
        }
        match lookup_type(new_rdf_node_types, &aggregate_expressions[a].output) {
            Option::Some(t) => {
                proof {
                    lemma_assoc_type_wf(
                        new_rdf_node_types@,
                        aggregate_expressions@[a as int].output@,
                    );
                    crate::terms::lemma_type_clone_wf(
                        assoc_type(new_rdf_node_types@, aggregate_expressions@[a as int].output@),
                        t,
                    );
                }
                agg_typ.push(t);
            },
            Option::None => {
                proof {
                    assert(false);
                }
                return Result::Err(
                    QueryProcessingError::InternalInvariantViolation(
                        String::from_str("missing aggregate output type"),
                    ),
                );
            },
        }
        a = a + 1;
    }
    // the kept by-columns
    let mut kept: Vec<usize> = Vec::new();
    let mut w3: usize = 0;
    while w3 < by.len()
        invariant
            0 <= w3 <= by@.len(),
            kept@.len() <= w3,
            forall|q: int|
                0 <= q < kept@.len() ==> 0 <= #[trigger] kept@[q] < w3 && by_kept(
                    by@,
                    dummy_varname,
                    kept@[q] as int,
                ),
            forall|q1: int, q2: int|
                0 <= q1 < q2 < kept@.len() ==> #[trigger] kept@[q1] < #[trigger] kept@[q2],
            forall|w4: int|
                0 <= w4 < w3 && by_kept(by@, dummy_varname, w4) ==> exists|q: int|
                    0 <= q < kept@.len() && #[trigger] kept@[q] as int == w4,
        decreases by@.len() - w3,
    {
        let keep: bool = match &dummy_varname {
            Option::Some(d) => !crate::text::str_eq(&by[w3], d),
            Option::None => true,
        };
        if keep {
            let ghost old_kept = kept@;
            kept.push(w3);
            proof {
                assert forall|w4: int|
                    0 <= w4 < w3 as int + 1 && by_kept(by@, dummy_varname, w4) implies exists|
                    q: int,
                |
                    0 <= q < kept@.len() && #[trigger] kept@[q] as int == w4 by {
                    if w4 < w3 as int {
                        let q = choose|q: int|
                            0 <= q < old_kept.len() && #[trigger] old_kept[q] as int == w4;
                        assert(kept@[q] as int == w4);
                    } else {
                        assert(kept@[kept@.len() - 1] as int == w4);
                    }
                }
            }
        }
        w3 = w3 + 1;
    }
    // output schema: kept key columns, then aggregate outputs
    let mut out_names: Vec<String> = Vec::new();
    let mut out_types: Vec<RDFNodeType> = Vec::new();
    let mut q: usize = 0;
    while q < kept.len()
        invariant
            0 <= q <= kept@.len(),
            sm.wf(),
            by@.len() == keys@.len(),
            forall|w2: int| 0 <= w2 < keys@.len() ==> 0 <= #[trigger] keys@[w2] < sm.width(),
            forall|w2: int|
                0 <= w2 < keys@.len() ==> #[trigger] keys@[w2] as int == sm.col_index(by@[w2]@),
            forall|q2: int| 0 <= q2 < kept@.len() ==> 0 <= #[trigger] kept@[q2] < by@.len(),
            out_names@.len() == q,
            out_types@.len() == q,
            forall|q2: int|
                0 <= q2 < q ==> #[trigger] out_names@[q2]@ == by@[kept@[q2] as int]@,
            forall|q2: int|
                0 <= q2 < q ==> type_clone_ok(
                    #[trigger] out_types@[q2],
                    sm.types@[keys@[kept@[q2] as int] as int],
                ) && type_wf(out_types@[q2]),
        decreases kept@.len() - q,
    {
        out_names.push(by[kept[q]].clone());
        let t = sm.types[keys[kept[q]]].clone();
        proof {
            crate::terms::lemma_type_clone_wf(
                sm.types@[keys@[kept@[q as int] as int] as int],
                t,
            );
        }
        out_types.push(t);
        q = q + 1;
    }
    let mut a2: usize = 0;
    while a2 < aggregate_expressions.len()
        invariant
            0 <= a2 <= aggregate_expressions@.len(),
            agg_typ@.len() == aggregate_expressions@.len(),
            out_names@.len() == kept@.len() + a2,
            out_types@.len() == kept@.len() + a2,
            forall|q2: int| 0 <= q2 < kept@.len() ==> 0 <= #[trigger] kept@[q2] < by@.len(),
            forall|q2: int|
                0 <= q2 < kept@.len() ==> #[trigger] out_names@[q2]@ == by@[kept@[q2] as int]@,
            forall|q2: int|
                0 <= q2 < kept@.len() ==> type_clone_ok(
                    #[trigger] out_types@[q2],
                    sm.types@[keys@[kept@[q2] as int] as int],
                ) && type_wf(out_types@[q2]),
            forall|q2: int|
                kept@.len() <= q2 < out_names@.len() ==> #[trigger] out_names@[q2]@
                    == aggregate_expressions@[q2 - kept@.len()].output@,
            forall|q2: int|
                kept@.len() <= q2 < out_types@.len() ==> type_clone_ok(
                    #[trigger] out_types@[q2],
                    assoc_type(
                        new_rdf_node_types@,
                        aggregate_expressions@[q2 - kept@.len()].output@,
                    ),
                ) && type_wf(out_types@[q2]),
            forall|a3: int|
                0 <= a3 < aggregate_expressions@.len() ==> type_clone_ok(
                    #[trigger] agg_typ@[a3],
                    assoc_type(new_rdf_node_types@, aggregate_expressions@[a3].output@),
                ) && type_wf(agg_typ@[a3]),
        decreases aggregate_expressions@.len() - a2,
    {
        out_names.push(aggregate_expressions[a2].output.clone());
        let t1 = agg_typ[a2].clone();
        proof {
            lemma_type_clone_trans(
                t1,
                agg_typ@[a2 as int],
                assoc_type(new_rdf_node_types@, aggregate_expressions@[a2 as int].output@),
            );
            crate::terms::lemma_type_clone_wf(agg_typ@[a2 as int], t1);
        }
        out_types.push(t1);
        a2 = a2 + 1;
    }
    // one output row per distinct key
    let w_out: usize = out_names.len();
    let mut new_rows: Vec<Vec<Option<Term>>> = Vec::new();
    let mut g: usize = 0;
    while g < reps.len()
        invariant
            0 <= g <= reps@.len(),
            sm.wf(),
            sm.height() < 0x8000_0000_0000_0000,
            all_keys@.len() == sm.height(),
            forall|k: int|
                0 <= k < all_keys@.len() ==> #[trigger] all_keys@[k]@ == key_of(sm, k, keys_spec),
            Seq::new(reps@.len(), |k: int| reps@[k]@) == gk,
            keys@.len() == by@.len(),
            forall|w2: int| 0 <= w2 < keys@.len() ==> 0 <= #[trigger] keys@[w2] < sm.width(),
            forall|k: int| 0 <= k < reps@.len() ==> #[trigger] reps@[k]@.len() == by@.len(),
            forall|k: int, w2: int|
                0 <= k < reps@.len() && 0 <= w2 < by@.len() ==> cell_fits(
                    #[trigger] reps@[k]@[w2],
                    sm.types@[keys@[w2] as int],
                ),
            agg_idx@.len() == aggregate_expressions@.len(),
            agg_typ@.len() == aggregate_expressions@.len(),
            forall|a3: int|
                0 <= a3 < aggregate_expressions@.len() ==> 0 <= #[trigger] agg_idx@[a3]
                    < sm.width() && agg_idx@[a3] as int == sm.col_index(
                    aggregate_expressions@[a3].input@,
                ),
            forall|a3: int|
                0 <= a3 < aggregate_expressions@.len() ==> type_clone_ok(
                    #[trigger] agg_typ@[a3],
                    assoc_type(new_rdf_node_types@, aggregate_expressions@[a3].output@),
                ) && type_wf(agg_typ@[a3]),
            kept@.len() + aggregate_expressions@.len() == w_out,
            forall|q2: int| 0 <= q2 < kept@.len() ==> 0 <= #[trigger] kept@[q2] < by@.len(),
            forall|q2: int|
                0 <= q2 < kept@.len() ==> type_clone_ok(
                    #[trigger] out_types@[q2],
                    sm.types@[keys@[kept@[q2] as int] as int],
                ),
            forall|q2: int|
                kept@.len() <= q2 < w_out ==> type_clone_ok(
                    #[trigger] out_types@[q2],
                    assoc_type(
                        new_rdf_node_types@,
                        aggregate_expressions@[q2 - kept@.len()].output@,
                    ),
                ),
            out_types@.len() == w_out,
            new_rows@.len() == g,
            forall|k: int| 0 <= k < g ==> #[trigger] new_rows@[k]@.len() == w_out,
            forall|k: int, q2: int|
                0 <= k < g && 0 <= q2 < kept@.len() ==> #[trigger] new_rows@[k]@[q2] == gk[k][kept@[q2] as int],
            forall|k: int, q2: int|
                kept@.len() <= q2 < w_out && 0 <= k < g ==> cell_v(#[trigger] new_rows@[k]@[q2])
                    == crate::terms::coerce_v(
                    agg_value(
                        aggregate_expressions@[q2 - kept@.len()].op,
                        group_col(
                            sm,
                            keys_spec,
                            gk[k],
                            agg_idx@[q2 - kept@.len()] as int,
                            sm.height(),
                        ),
                    ),
                    assoc_type(
                        new_rdf_node_types@,
                        aggregate_expressions@[q2 - kept@.len()].output@,
                    ),
                ),
            forall|k: int, q2: int|
                0 <= k < g && 0 <= q2 < w_out ==> cell_fits(
                    #[trigger] new_rows@[k]@[q2],
                    out_types@[q2],
                ),
        decreases reps@.len() - g,
    {
        let mut nr: Vec<Option<Term>> = Vec::new();
        let mut q2: usize = 0;
        while q2 < kept.len()
            invariant
                0 <= q2 <= kept@.len(),
                0 <= g < reps@.len(),
                forall|q3: int| 0 <= q3 < kept@.len() ==> 0 <= #[trigger] kept@[q3] < by@.len(),
                forall|k: int| 0 <= k < reps@.len() ==> #[trigger] reps@[k]@.len() == by@.len(),
                nr@.len() == q2,
                forall|q3: int|
                    0 <= q3 < q2 ==> #[trigger] nr@[q3] == reps@[g as int]@[kept@[q3] as int],
            decreases kept@.len() - q2,
        {
            nr.push(crate::terms::clone_cell(&reps[g][kept[q2]]));
            q2 = q2 + 1;
        }
        let mut a3: usize = 0;
        while a3 < aggregate_expressions.len()
            invariant
                0 <= a3 <= aggregate_expressions@.len(),
                sm.wf(),
                sm.height() < 0x8000_0000_0000_0000,
                0 <= g < reps@.len(),
                all_keys@.len() == sm.height(),
                forall|k: int|
                    0 <= k < all_keys@.len() ==> #[trigger] all_keys@[k]@ == key_of(
                        sm,
                        k,
                        keys_spec,
                    ),
                Seq::new(reps@.len(), |k: int| reps@[k]@) == gk,
                agg_idx@.len() == aggregate_expressions@.len(),
                agg_typ@.len() == aggregate_expressions@.len(),
                forall|a4: int|
                    0 <= a4 < aggregate_expressions@.len() ==> 0 <= #[trigger] agg_idx@[a4]
                        < sm.width(),
                forall|a4: int|
                    0 <= a4 < aggregate_expressions@.len() ==> type_clone_ok(
                        #[trigger] agg_typ@[a4],
                        assoc_type(new_rdf_node_types@, aggregate_expressions@[a4].output@),
                    ) && type_wf(agg_typ@[a4]),
                kept@.len() + aggregate_expressions@.len() == w_out,
                nr@.len() == kept@.len() + a3,
                forall|q3: int|
                    0 <= q3 < kept@.len() ==> #[trigger] nr@[q3] == reps@[g as int]@[kept@[q3] as int],
                forall|q3: int|
                    kept@.len() <= q3 < nr@.len() ==> cell_v(#[trigger] nr@[q3])
                        == crate::terms::coerce_v(
                        agg_value(
                            aggregate_expressions@[q3 - kept@.len()].op,
                            group_col(
                                sm,
                                keys_spec,
                                reps@[g as int]@,
                                agg_idx@[q3 - kept@.len()] as int,
                                sm.height(),
                            ),
                        ),
                        assoc_type(
                            new_rdf_node_types@,
                            aggregate_expressions@[q3 - kept@.len()].output@,
                        ),
                    ),
                forall|q3: int|
                    kept@.len() <= q3 < nr@.len() ==> cell_fits(
                        #[trigger] nr@[q3],
                        agg_typ@[q3 - kept@.len()],
                    ),
            decreases aggregate_expressions@.len() - a3,
        {
            // collect this group's cells of the aggregate's input column
            let ghost kk = reps@[g as int]@;
            let c_idx = agg_idx[a3];
            let mut collected: Vec<Option<Term>> = Vec::new();
            let mut i3: usize = 0;
            while i3 < sm.rows.len()
                invariant
                    0 <= i3 <= sm.height(),
                    sm.wf(),
                    0 <= g < reps@.len(),
                    0 <= c_idx < sm.width(),
                    all_keys@.len() == sm.height(),
                    forall|k: int|
                        0 <= k < all_keys@.len() ==> #[trigger] all_keys@[k]@ == key_of(
                            sm,
                            k,
                            keys_spec,
                        ),
                    kk == reps@[g as int]@,
                    collected@.len() <= i3,
                    Seq::new(collected@.len(), |w4: int| cell_v(collected@[w4])) == group_col(
                        sm,
                        keys_spec,
                        kk,
                        c_idx as int,
                        i3 as int,
                    ),
                    forall|w4: int|
                        0 <= w4 < collected@.len() ==> crate::eval::cell_term_wf(
                            #[trigger] collected@[w4],
                        ),
                decreases sm.height() - i3,
            {
                if row_eq(&all_keys[i3], &reps[g]) {
                    let c = crate::terms::clone_cell(&sm.rows[i3][c_idx]);
                    proof {
                        assert(crate::eval::cell_term_wf(sm.rows@[i3 as int]@[c_idx as int]));
                    }
                    collected.push(c);
                    proof {
                        assert(Seq::new(collected@.len(), |w4: int| cell_v(collected@[w4]))
                            =~= group_col(sm, keys_spec, kk, c_idx as int, i3 as int + 1));
                    }
                } else {
                    proof {
                        assert(Seq::new(collected@.len(), |w4: int| cell_v(collected@[w4]))
                            =~= group_col(sm, keys_spec, kk, c_idx as int, i3 as int + 1));
                    }
                }
                i3 = i3 + 1;
            }
            let raw = agg_cell(aggregate_expressions[a3].op, &collected);
            proof {
                match &raw {
                    Option::Some(t) => {
                        crate::terms::lemma_cell_fits_v(*t, agg_typ@[a3 as int]);
                        crate::terms::lemma_tv_in_type_clone(
                            crate::terms::term_v(*t),
                            assoc_type(
                                new_rdf_node_types@,
                                aggregate_expressions@[a3 as int].output@,
                            ),
                            agg_typ@[a3 as int],
                        );
                    },
                    Option::None => {},
                }
            }
            let c: Option<Term> = if crate::solution_mapping::cell_fits_check(
                &raw,
                &agg_typ[a3],
            ) {
                raw
            } else {
                Option::None
            };
            nr.push(c);
            a3 = a3 + 1;
        }
        proof {
            assert(gk[g as int] == reps@[g as int]@);
        }
        new_rows.push(nr);
        proof {
            assert forall|k: int, q3: int|
                0 <= k < g as int + 1 && 0 <= q3 < w_out implies cell_fits(
                #[trigger] new_rows@[k]@[q3],
                out_types@[q3],
            ) by {
                if k < g as int {
                } else {
                    if q3 < kept@.len() {
                        assert(new_rows@[k]@[q3] == reps@[g as int]@[kept@[q3] as int]);
                        crate::terms::lemma_type_clone_fits(
                            new_rows@[k]@[q3],
                            sm.types@[keys@[kept@[q3] as int] as int],
                            out_types@[q3],
                        );
                    } else {
                        assert(cell_fits(new_rows@[k]@[q3], agg_typ@[q3 - kept@.len()]));
                        match new_rows@[k]@[q3] {
                            Option::Some(t) => {
                                crate::terms::lemma_cell_fits_v(t, agg_typ@[q3 - kept@.len()]);
                                crate::terms::lemma_tv_in_type_clone(
                                    crate::terms::term_v(t),
                                    assoc_type(
                                        new_rdf_node_types@,
                                        aggregate_expressions@[q3 - kept@.len()].output@,
                                    ),
                                    agg_typ@[q3 - kept@.len()],
                                );
                                crate::terms::lemma_cell_fits_v(t, out_types@[q3]);
                                crate::terms::lemma_tv_in_type_clone(
                                    crate::terms::term_v(t),
                                    assoc_type(
                                        new_rdf_node_types@,
                                        aggregate_expressions@[q3 - kept@.len()].output@,
                                    ),
                                    out_types@[q3],
                                );
                            },
                            Option::None => {},
                        }
                    }
                }
            }
        }
        g = g + 1;
    }
    let out = SolutionMappings { names: out_names, types: out_types, rows: new_rows };
    proof {
        let nb = kept@.len() as int;
        // distinct names
        assert forall|x: int, y: int| 0 <= x < y < out.width() implies out.name(x) != out.name(
            y,
        ) by {
            if y < nb {
                assert(out.name(x) == by@[kept@[x] as int]@);
                assert(out.name(y) == by@[kept@[y] as int]@);
                assert(kept@[x] < kept@[y]);
            } else if x < nb {
                assert(out.name(x) == by@[kept@[x] as int]@);
                assert(out.name(y) == aggregate_expressions@[y - nb].output@);
            } else {
                assert(out.name(x) == aggregate_expressions@[x - nb].output@);
                assert(out.name(y) == aggregate_expressions@[y - nb].output@);
            }
        }
        assert(out.wf());
        // schema characterization
        assert forall|n: Seq<char>| #[trigger] out.has_col(n) implies ((exists|w4: int|
            0 <= w4 < by@.len() && (#[trigger] by@[w4])@ == n && by_kept(by@, dummy_varname, w4))
            || (exists|a4: int|
            0 <= a4 < aggregate_expressions@.len()
                && (#[trigger] aggregate_expressions@[a4]).output@ == n)) by {
            out.lemma_col_index(n);
            let c2 = out.col_index(n);
            if c2 < nb {
                assert(by@[kept@[c2] as int]@ == n);
                assert(by_kept(by@, dummy_varname, kept@[c2] as int));
            } else {
                assert(aggregate_expressions@[c2 - nb].output@ == n);
            }
        }
        assert forall|n: Seq<char>| ((exists|w4: int|
            0 <= w4 < by@.len() && (#[trigger] by@[w4])@ == n && by_kept(by@, dummy_varname, w4))
            || (exists|a4: int|
            0 <= a4 < aggregate_expressions@.len()
                && (#[trigger] aggregate_expressions@[a4]).output@ == n)) implies #[trigger] out.has_col(
            n,
        ) by {
            if exists|w4: int|
                0 <= w4 < by@.len() && (#[trigger] by@[w4])@ == n && by_kept(
                    by@,
                    dummy_varname,
                    w4,
                ) {
                let w4 = choose|w4: int|
                    0 <= w4 < by@.len() && (#[trigger] by@[w4])@ == n && by_kept(
                        by@,
                        dummy_varname,
                        w4,
                    );
                let q3 = choose|q3: int|
                    0 <= q3 < kept@.len() && #[trigger] kept@[q3] as int == w4;
                assert(out.name(q3) == n);
            } else {
                let a4 = choose|a4: int|
                    0 <= a4 < aggregate_expressions@.len()
                        && (#[trigger] aggregate_expressions@[a4]).output@ == n;
                assert(out.name(nb + a4) == n);
            }
        }
        // per-column clauses
        assert forall|w4: int|
            0 <= w4 < by@.len() && by_kept(by@, dummy_varname, w4) implies type_clone_ok(
            out.type_at(#[trigger] by@[w4]@),
            sm.type_at(by@[w4]@),
        ) && (forall|k: int|
            0 <= k < gk.len() ==> #[trigger] out.cell_at(k, by@[w4]@) == gk[k][w4]) by {
            let q3 = choose|q3: int| 0 <= q3 < kept@.len() && #[trigger] kept@[q3] as int == w4;
            assert(out.name(q3) == by@[w4]@);
            assert(out.has_col(by@[w4]@));
            out.lemma_col_index(by@[w4]@);
            assert(out.col_index(by@[w4]@) == q3);
            assert(keys@[w4] as int == sm.col_index(by@[w4]@));
        }
        assert forall|a4: int| 0 <= a4 < aggregate_expressions@.len() implies type_clone_ok(
            out.type_at((#[trigger] aggregate_expressions@[a4]).output@),
            assoc_type(new_rdf_node_types@, aggregate_expressions@[a4].output@),
        ) && (forall|k: int|
            0 <= k < gk.len() ==> cell_v(
                #[trigger] out.cell_at(k, aggregate_expressions@[a4].output@),
            ) == crate::terms::coerce_v(
                agg_value(
                    aggregate_expressions@[a4].op,
                    group_col(
                        sm,
                        keys_spec,
                        gk[k],
                        sm.col_index(aggregate_expressions@[a4].input@),
                        sm.height(),
                    ),
                ),
                assoc_type(new_rdf_node_types@, aggregate_expressions@[a4].output@),
            )) by {
            assert(out.name(nb + a4) == aggregate_expressions@[a4].output@);
            assert(out.has_col(aggregate_expressions@[a4].output@));
            out.lemma_col_index(aggregate_expressions@[a4].output@);
            assert(out.col_index(aggregate_expressions@[a4].output@) == nb + a4);
            assert(agg_idx@[a4] as int == sm.col_index(aggregate_expressions@[a4].input@));
        }
    }
    Result::Ok(out)
}

/// Clones of clones keep the same contents.
proof fn lemma_type_clone_trans(a: RDFNodeType, b: RDFNodeType, c: RDFNodeType)
    requires
        type_clone_ok(a, b),
        type_clone_ok(b, c),
    ensures
        type_clone_ok(a, c),
{
}

/// A recorded association entry's type is well formed.
proof fn lemma_assoc_type_wf(entries: Seq<(String, RDFNodeType)>, n: Seq<char>)
    requires
        forall|e: int| 0 <= e < entries.len() ==> type_wf((#[trigger] entries[e]).1),
        assoc_has(entries, n),
    ensures
        type_wf(assoc_type(entries, n)),
    decreases entries.len(),
{
    if entries.len() > 0 {
        if entries[0].0@ == n {
        } else {
            assert forall|e: int| 0 <= e < entries.skip(1).len() implies type_wf(
                (#[trigger] entries.skip(1)[e]).1,
            ) by {
                assert(entries.skip(1)[e] == entries[e + 1]);
            }
            assert(assoc_has(entries.skip(1), n)) by {
                let k = choose|k: int| 0 <= k < entries.len() && (#[trigger] entries[k]).0@ == n;
                assert(entries.skip(1)[k - 1] == entries[k]);
            }
            lemma_assoc_type_wf(entries.skip(1), n);
        }
    }
}

/// Three-way comparison of two sort-key cells: unbound cells sort last
/// whatever the direction; bound cells compare by value, reversed for a
/// descending key; incomparable values tie.
pub open spec fn cell_cmp(x: Option<Term>, y: Option<Term>, asc: bool) -> int {
    match (x, y) {
        (Option::None, Option::None) => 0,
        (Option::None, Option::Some(_)) => 1,
        (Option::Some(_), Option::None) => -1,
        (Option::Some(a), Option::Some(b)) => {
            let base: int = if crate::eval::val_lt(term_v(a), term_v(b)) {
                -1
            } else if crate::eval::val_lt(term_v(b), term_v(a)) {
                1
            } else {
                0
            };
            if asc {
                base
            } else {
                -base
            }
        },
    }
}

/// Lexicographic three-way comparison of two rows over the sort keys.
pub open spec fn row_key_cmp(
    a: Seq<Option<Term>>,
    b: Seq<Option<Term>>,
    idxs: Seq<int>,
    asc: Seq<bool>,
) -> int
    decreases idxs.len(),
{
    if idxs.len() == 0 {
        0
    } else {
        let c = cell_cmp(a[idxs[0]], b[idxs[0]], asc[0]);
        if c != 0 {
            c
        } else {
            row_key_cmp(a, b, idxs.skip(1), asc.skip(1))
        }
    }
}

/// The comparison is antisymmetric, so two rows always admit an order.
pub proof fn lemma_row_cmp_antisym(
    a: Seq<Option<Term>>,
    b: Seq<Option<Term>>,
    idxs: Seq<int>,
    asc: Seq<bool>,
)
    requires
        idxs.len() == asc.len(),
    ensures
        row_key_cmp(a, b, idxs, asc) == -row_key_cmp(b, a, idxs, asc),
    decreases idxs.len(),
{
    if idxs.len() == 0 {
    } else {
        lemma_cell_cmp_antisym(a[idxs[0]], b[idxs[0]], asc[0]);
        lemma_row_cmp_antisym(a, b, idxs.skip(1), asc.skip(1));
    }
}

proof fn lemma_cell_cmp_antisym(x: Option<Term>, y: Option<Term>, asc: bool)
    ensures
        cell_cmp(x, y, asc) == -cell_cmp(y, x, asc),
{
    match (x, y) {
        (Option::Some(a), Option::Some(b)) => {
            lemma_val_lt_asym(term_v(a), term_v(b));
        },
        _ => {},
    }
}

proof fn lemma_val_lt_asym(p: TermV, q: TermV)
    ensures
        !(crate::eval::val_lt(p, q) && crate::eval::val_lt(q, p)),
{
    match (p, q) {
        (TermV::Lit(_, LitV::S(sa)), TermV::Lit(_, LitV::S(sb))) => {
            crate::text::lemma_seq_char_lt_trichotomy(sa, sb);
        },
        _ => {},
    }
}

/// Splicing a row into a sequence inserts it into the multiset of rows.
proof fn lemma_seq_insert_multiset(s: Seq<Seq<Option<Term>>>, p: int, x: Seq<Option<Term>>)
    requires
        0 <= p <= s.len(),
    ensures
        s.insert(p, x).to_multiset() =~= s.to_multiset().insert(x),
{
    broadcast use vstd::seq_lib::group_seq_properties;

    let si = s.insert(p, x);
    si.to_multiset_ensures();
    s.to_multiset_ensures();
    assert(si[p] == x);
    assert(si.remove(p) =~= s);
    assert(si.remove(p).to_multiset() =~= si.to_multiset().remove(x));
    assert(si.contains(x)) by {
        assert(si[p] == x);
    }
    assert(si.to_multiset().count(x) > 0);
    assert forall|y: Seq<Option<Term>>| true implies si.to_multiset().count(y)
        == s.to_multiset().insert(x).count(y) by {
        if y == x {
            assert(s.to_multiset().count(x) == si.to_multiset().remove(x).count(x));
        } else {
            assert(s.to_multiset().count(y) == si.to_multiset().remove(x).count(y));
        }
    }
}

/// Sorts by the pre-compiled sort-key columns, every adjacent pair of
/// output rows in order (unbound keys last, descending keys reversed),
/// then drops the transient key columns.  The output rows are a
/// permutation of the input rows with the key columns projected away; the
/// existential witness is the sorted full-width row sequence.
#[verifier::rlimit(100)]
pub fn order_by(
    solution_mappings: SolutionMappings,
    inner_contexts: &Vec<Context>,
    asc_ordering: Vec<bool>,
) -> (res: Result<SolutionMappings, QueryProcessingError>)
    requires
        solution_mappings.wf(),
        asc_ordering@.len() == inner_contexts@.len(),
    ensures
        (res matches Result::Ok(_)) <==> (forall|w: int|
            0 <= w < inner_contexts@.len() ==> solution_mappings.has_col(
                #[trigger] inner_contexts@[w]@,
            )),
        res matches Result::Err(e) ==> e matches
            QueryProcessingError::InternalInvariantViolation(_),
        res matches Result::Ok(out) ==> {
            let sm = solution_mappings;
            let keyidx = Seq::new(
                inner_contexts@.len(),
                |w: int| sm.col_index(inner_contexts@[w]@),
            );
            &&& out.wf()
            &&& out.height() == sm.height()
            &&& forall|n: Seq<char>| #[trigger]
                out.has_col(n) <==> (sm.has_col(n) && !crate::expressions::ctx_names(
                    inner_contexts@,
                ).contains(n))
            &&& forall|n: Seq<char>| #[trigger]
                out.has_col(n) ==> out.type_at(n) == sm.type_at(n)
            &&& exists|rows2: Seq<Seq<Option<Term>>>|
                {
                    &&& rows2.len() == sm.height()
                    &&& rows2.to_multiset() == rows_model(sm).to_multiset()
                    &&& (forall|k: int|
                        0 <= k < rows2.len() - 1 ==> #[trigger] row_key_cmp(
                            rows2[k],
                            rows2[k + 1],
                            keyidx,
                            asc_ordering@,
                        ) <= 0)
                    &&& (forall|k: int, n: Seq<char>|
                        0 <= k < sm.height() && #[trigger] out.has_col(n)
                            ==> #[trigger] out.cell_at(k, n) == rows2[k][sm.col_index(n)])
                }
        },
{
    let sm = solution_mappings;
    let ghost keyidx = Seq::new(inner_contexts@.len(), |w: int| sm.col_index(inner_contexts@[w]@));
    let mut idxs: Vec<usize> = Vec::new();
    let mut w: usize = 0;
    while w < inner_contexts.len()
        invariant
            0 <= w <= inner_contexts@.len(),
            sm.wf(),
            sm == solution_mappings,
            idxs@.len() == w,
            forall|w2: int|
                0 <= w2 < w ==> 0 <= #[trigger] idxs@[w2] < sm.width() && idxs@[w2] as int
                    == sm.col_index(inner_contexts@[w2]@) && sm.has_col(inner_contexts@[w2]@),
        decreases inner_contexts@.len() - w,
    {
        match find_col(&sm, &inner_contexts[w].name) {
            Option::Some(j) => {
                let ghost old_idxs = idxs@;
                proof {
                    assert(sm.has_col(inner_contexts@[w as int]@));
                    sm.lemma_col_index(inner_contexts@[w as int]@);
                }
                idxs.push(j);
                proof {
                    assert forall|w2: int| 0 <= w2 < w as int + 1 implies 0 <= #[trigger] idxs@[w2]
                        < sm.width() && idxs@[w2] as int == sm.col_index(inner_contexts@[w2]@)
                        && sm.has_col(inner_contexts@[w2]@) by {
                        if w2 < w as int {
                            assert(idxs@[w2] == old_idxs[w2]);
                        } else {
                            assert(idxs@[w2] == j);
                        }
                    }
                }
            },
            Option::None => {
                proof {
                    assert(!sm.has_col(inner_contexts@[w as int]@));
                    assert(!solution_mappings.has_col(inner_contexts@[w as int]@));
                }
                return Result::Err(
                    QueryProcessingError::InternalInvariantViolation(
                        String::from_str("missing sort key column"),
                    ),
                );
            },
        }
        w = w + 1;
    }
    proof {
        assert(Seq::new(idxs@.len(), |w2: int| idxs@[w2] as int) =~= keyidx);
        assert forall|w2: int| 0 <= w2 < inner_contexts@.len() implies sm.has_col(
            #[trigger] inner_contexts@[w2]@,
        ) by {
            assert(0 <= idxs@[w2] < sm.width());
        }
    }
    // insertion sort of the full rows
    let mut sorted: Vec<Vec<Option<Term>>> = Vec::new();
    let mut i: usize = 0;
    proof {
        assert(Seq::new(sorted@.len(), |k: int| sorted@[k]@) =~= rows_model(sm).take(0));
    }
    while i < sm.rows.len()
        invariant
            0 <= i <= sm.height(),
            sm.wf(),
            idxs@.len() == inner_contexts@.len(),
            asc_ordering@.len() == inner_contexts@.len(),
            forall|w2: int|
                0 <= w2 < idxs@.len() ==> 0 <= #[trigger] idxs@[w2] < sm.width(),
            Seq::new(idxs@.len(), |w2: int| idxs@[w2] as int) == keyidx,
            sorted@.len() == i,
            Seq::new(sorted@.len(), |k: int| sorted@[k]@).to_multiset() == rows_model(sm).take(
                i as int,
            ).to_multiset(),
            forall|k: int|
                0 <= k < sorted@.len() - 1 ==> #[trigger] row_key_cmp(
                    sorted@[k]@,
                    sorted@[k + 1]@,
                    keyidx,
                    asc_ordering@,
                ) <= 0,
            forall|k: int| 0 <= k < sorted@.len() ==> #[trigger] sorted@[k]@.len() == sm.width(),
            forall|k: int, c: int|
                0 <= k < sorted@.len() && 0 <= c < sm.width() ==> cell_fits(
                    #[trigger] sorted@[k]@[c],
                    sm.types@[c],
                ),
        decreases sm.height() - i,
    {
        let x = clone_row(&sm.rows[i]);
        // find the first position whose row is strictly after `x`
        let mut p: usize = 0;
        let mut found: bool = false;
        while !found && p < sorted.len()
            invariant
                0 <= p <= sorted@.len(),
                sm.wf(),
                idxs@.len() == inner_contexts@.len(),
                asc_ordering@.len() == inner_contexts@.len(),
                forall|w2: int|
                    0 <= w2 < idxs@.len() ==> 0 <= #[trigger] idxs@[w2] < sm.width(),
                Seq::new(idxs@.len(), |w2: int| idxs@[w2] as int) == keyidx,
                x@ == sm.rows@[i as int]@,
                0 <= i < sm.height(),
                forall|k: int| 0 <= k < sorted@.len() ==> #[trigger] sorted@[k]@.len()
                    == sm.width(),
                forall|q: int|
                    0 <= q < p ==> #[trigger] row_key_cmp(x@, sorted@[q]@, keyidx, asc_ordering@)
                        >= 0,
                found ==> p < sorted@.len() && row_key_cmp(
                    x@,
                    sorted@[p as int]@,
                    keyidx,
                    asc_ordering@,
                ) < 0,
            decreases sorted@.len() - p + (if found {
                0int
            } else {
                1int
            }),
        {
            let c = row_cmp(&x, &sorted[p], &idxs, &asc_ordering);
            if c < 0 {
                found = true;
            } else {
                p = p + 1;
            }
        }
        let ghost old_sorted = sorted@;
        let ghost xg = x;
        sorted.insert(p, x);
        proof {
            assert(sorted@ == old_sorted.insert(p as int, xg));
            old_sorted.insert_ensures(p as int, xg);
            let om = Seq::new(old_sorted.len(), |k: int| old_sorted[k]@);
            let nm = Seq::new(sorted@.len(), |k: int| sorted@[k]@);
            assert(nm =~= om.insert(p as int, xg@));
            lemma_seq_insert_multiset(om, p as int, xg@);
            assert(rows_model(sm).take(i as int + 1) =~= rows_model(sm).take(i as int).push(
                sm.rows@[i as int]@,
            ));
            rows_model(sm).take(i as int).to_multiset_ensures();
            assert(nm.to_multiset() =~= rows_model(sm).take(i as int + 1).to_multiset());
            // adjacent order is preserved around the insertion point
            assert forall|k: int|
                0 <= k < sorted@.len() - 1 implies #[trigger] row_key_cmp(
                sorted@[k]@,
                sorted@[k + 1]@,
                keyidx,
                asc_ordering@,
            ) <= 0 by {
                if k + 1 < p as int {
                    assert(sorted@[k] == old_sorted[k]);
                    assert(sorted@[k + 1] == old_sorted[k + 1]);
                } else if k + 1 == p as int {
                    assert(sorted@[k] == old_sorted[k]);
                    assert(sorted@[k + 1] == xg);
                    lemma_row_cmp_antisym(xg@, old_sorted[k]@, keyidx, asc_ordering@);
                } else if k == p as int {
                    assert(sorted@[k] == xg);
                    assert(sorted@[k + 1] == old_sorted[k]);
                    assert(row_key_cmp(xg@, old_sorted[k]@, keyidx, asc_ordering@) < 0);
                } else {
                    assert(sorted@[k] == old_sorted[k - 1]);
                    assert(sorted@[k + 1] == old_sorted[k]);
                }
            }
        }
        i = i + 1;
    }
    proof {
        assert(rows_model(sm).take(sm.height()) =~= rows_model(sm));
    }
    let ghost rows2 = Seq::new(sorted@.len(), |k: int| sorted@[k]@);
    let SolutionMappings { names, types, rows: _old_rows } = sm;
    let sm2 = SolutionMappings { names, types, rows: sorted };
    proof {
        assert(sm2.names@ == sm.names@);
        assert forall|a: int, b: int| 0 <= a < b < sm2.width() implies sm2.name(a) != sm2.name(
            b,
        ) by {
            assert(sm2.name(a) == sm.name(a));
            assert(sm2.name(b) == sm.name(b));
        }
        assert(sm2.wf());
    }
    let out = drop_inner_contexts(sm2, inner_contexts);
    proof {
        let ds = crate::expressions::ctx_names(inner_contexts@);
        assert forall|n: Seq<char>| #[trigger] out.has_col(n) <==> (sm.has_col(n) && !ds.contains(
            n,
        )) by {
            assert(sm2.has_col(n) == sm.has_col(n)) by {
                if sm.has_col(n) {
                    sm.lemma_col_index(n);
                    assert(sm2.name(sm.col_index(n)) == n);
                }
                if sm2.has_col(n) {
                    sm2.lemma_col_index(n);
                    assert(sm.name(sm2.col_index(n)) == n);
                }
            }
        }
        assert forall|n: Seq<char>| #[trigger] out.has_col(n) implies out.type_at(n) == sm.type_at(
            n,
        ) && (forall|k: int|
            0 <= k < sm.height() ==> #[trigger] out.cell_at(k, n) == rows2[k][sm.col_index(
                n,
            )]) by {
            sm2.lemma_col_index(n);
            sm.lemma_col_index(n);
            assert(sm2.name(sm.col_index(n)) == n);
            assert(sm2.col_index(n) == sm.col_index(n));
            assert(out.type_at(n) == sm2.type_at(n));
            assert forall|k: int| 0 <= k < sm.height() implies #[trigger] out.cell_at(k, n)
                == rows2[k][sm.col_index(n)] by {
                assert(out.cell_at(k, n) == sm2.cell_at(k, n));
            }
        }
        assert(rows2.len() == sm.height());
        assert(rows2.to_multiset() == rows_model(sm).to_multiset());
    }
    Result::Ok(out)
}

/// Compares two rows over the sort keys, reflecting `row_key_cmp`.
fn row_cmp(
    a: &Vec<Option<Term>>,
    b: &Vec<Option<Term>>,
    idxs: &Vec<usize>,
    asc: &Vec<bool>,
) -> (r: i32)
    requires
        idxs@.len() == asc@.len(),
        forall|w: int| 0 <= w < idxs@.len() ==> #[trigger] idxs@[w] < a@.len(),
        forall|w: int| 0 <= w < idxs@.len() ==> #[trigger] idxs@[w] < b@.len(),
    ensures
        r as int == row_key_cmp(
            a@,
            b@,
            Seq::new(idxs@.len(), |w: int| idxs@[w] as int),
            asc@,
        ),
{
    let ghost kidx = Seq::new(idxs@.len(), |w: int| idxs@[w] as int);
    let mut w: usize = 0;
    proof {
        assert(kidx.skip(0) =~= kidx);
        assert(asc@.skip(0) =~= asc@);
    }
    while w < idxs.len()
        invariant
            0 <= w <= idxs@.len(),
            idxs@.len() == asc@.len(),
            forall|w2: int| 0 <= w2 < idxs@.len() ==> #[trigger] idxs@[w2] < a@.len(),
            forall|w2: int| 0 <= w2 < idxs@.len() ==> #[trigger] idxs@[w2] < b@.len(),
            kidx == Seq::new(idxs@.len(), |w2: int| idxs@[w2] as int),
            row_key_cmp(a@, b@, kidx, asc@) == row_key_cmp(
                a@,
                b@,
                kidx.skip(w as int),
                asc@.skip(w as int),
            ),
        decreases idxs@.len() - w,
    {
        let xc = &a[idxs[w]];
        let yc = &b[idxs[w]];
        let c: i32 = match (xc, yc) {
            (Option::None, Option::None) => 0,
            (Option::None, Option::Some(_)) => 1,
            (Option::Some(_), Option::None) => -1,
            (Option::Some(ta), Option::Some(tb)) => {
                let base: i32 = if crate::eval::exec_val_lt(ta, tb) {
                    -1
                } else if crate::eval::exec_val_lt(tb, ta) {
                    1
                } else {
                    0
                };
                if asc[w] {
                    base
                } else {
                    -base
                }
            },
        };
        proof {
            assert(kidx.skip(w as int)[0] == kidx[w as int]);
            assert(asc@.skip(w as int)[0] == asc@[w as int]);
            assert(c as int == cell_cmp(a@[kidx[w as int]], b@[kidx[w as int]], asc@[w as int]));
            assert(kidx.skip(w as int).skip(1) =~= kidx.skip(w as int + 1));
            assert(asc@.skip(w as int).skip(1) =~= asc@.skip(w as int + 1));
        }
        if c != 0 {
            return c;
        }
        w = w + 1;
    }
    proof {
        assert(kidx.skip(idxs@.len() as int) =~= Seq::<int>::empty());
        assert(asc@.skip(idxs@.len() as int) =~= Seq::<bool>::empty());
    }
    0
}

/// The right-only indices are increasing, in range, and name no left
/// column.
proof fn lemma_right_only_props(l: SolutionMappings, r: SolutionMappings, upto: int)
    requires
        0 <= upto <= r.width(),
    ensures
        forall|a: int, b: int|
            0 <= a < b < right_only_idxs(l, r, upto).len() ==> #[trigger] right_only_idxs(
                l,
                r,
                upto,
            )[a] < #[trigger] right_only_idxs(l, r, upto)[b],
        forall|a: int|
            0 <= a < right_only_idxs(l, r, upto).len() ==> 0 <= #[trigger] right_only_idxs(
                l,
                r,
                upto,
            )[a] < upto && !l.has_col(r.name(right_only_idxs(l, r, upto)[a])),
    decreases upto,
{
    if upto > 0 {
        lemma_right_only_props(l, r, upto - 1);
        let s = right_only_idxs(l, r, upto);
        let p = right_only_idxs(l, r, upto - 1);
        if l.has_col(r.name(upto - 1)) {
            assert(s == p);
        } else {
            assert(s == p.push(upto - 1));
            assert forall|a: int, b: int| 0 <= a < b < s.len() implies #[trigger] s[a]
                < #[trigger] s[b] by {
                if b < s.len() - 1 {
                    assert(s[a] == p[a]);
                    assert(s[b] == p[b]);
                } else {
                    assert(s[b] == upto - 1);
                    if a < s.len() - 1 {
                        assert(s[a] == p[a]);
                    }
                }
            }
            assert forall|a: int| 0 <= a < s.len() implies 0 <= #[trigger] s[a] < upto
                && !l.has_col(r.name(s[a])) by {
                if a < s.len() - 1 {
                    assert(s[a] == p[a]);
                } else {
                    assert(s[a] == upto - 1);
                }
            }
        }
    }
}

/// Every right column whose name is not on the left appears among the
/// right-only indices.
proof fn lemma_right_only_covers(l: SolutionMappings, r: SolutionMappings, upto: int, c: int)
    requires
        0 <= c < upto <= r.width(),
        !l.has_col(r.name(c)),
    ensures
        exists|w: int|
            0 <= w < right_only_idxs(l, r, upto).len() && #[trigger] right_only_idxs(l, r, upto)[w]
                == c,
    decreases upto,
{
    if c == upto - 1 {
        let s = right_only_idxs(l, r, upto);
        assert(s[s.len() - 1] == c);
    } else {
        lemma_right_only_covers(l, r, upto - 1, c);
        let w = choose|w: int|
            0 <= w < right_only_idxs(l, r, upto - 1).len() && #[trigger] right_only_idxs(
                l,
                r,
                upto - 1,
            )[w] == c;
        assert(right_only_idxs(l, r, upto)[w] == c);
    }
}

/// Distinct requested variables have distinct present entries.
proof fn lemma_present_vars_distinct(vars: Seq<Seq<char>>, sm: SolutionMappings)
    requires
        forall|a: int, b: int| 0 <= a < b < vars.len() ==> vars[a] != vars[b],
    ensures
        forall|a: int, b: int|
            0 <= a < b < present_vars(vars, sm).len() ==> #[trigger] present_vars(vars, sm)[a]
                != #[trigger] present_vars(vars, sm)[b],
        forall|a: int| 0 <= a < present_vars(vars, sm).len() ==> exists|w: int|
            0 <= w < vars.len() && #[trigger] present_vars(vars, sm)[a] == vars[w],
    decreases vars.len(),
{
    if vars.len() == 0 {
    } else {
        lemma_present_vars_distinct(vars.drop_last(), sm);
        let pre = present_vars(vars.drop_last(), sm);
        assert forall|a: int| 0 <= a < present_vars(vars, sm).len() implies exists|w: int|
            0 <= w < vars.len() && #[trigger] present_vars(vars, sm)[a] == vars[w] by {
            if a < pre.len() {
                let w = choose|w: int|
                    0 <= w < vars.drop_last().len() && pre[a] == vars.drop_last()[w];
                assert(present_vars(vars, sm)[a] == vars[w]);
            } else {
                assert(present_vars(vars, sm)[a] == vars[vars.len() - 1]);
            }
        }
        assert forall|a: int, b: int|
            0 <= a < b < present_vars(vars, sm).len() implies #[trigger] present_vars(vars, sm)[a]
            != #[trigger] present_vars(vars, sm)[b] by {
            if b < pre.len() {
            } else if sm.has_col(vars.last()) {
                assert(present_vars(vars, sm)[b] == vars.last());
                assert(present_vars(vars, sm)[a] == pre[a]);
                let w = choose|w: int|
                    0 <= w < vars.drop_last().len() && pre[a] == vars.drop_last()[w];
                assert(vars[w] != vars[vars.len() - 1]);
            }
        }
    }
}

} // verus!
