use vstd::prelude::*;
use crate::ast::Operator;
use crate::terms::{Term, LitValue, TermV, LitV, term_v, cell_v, term_v_same, term_wf,
    term_eq, is_integer_datatype, is_float_datatype, lit_value_fits, lit_v, mul_i64,
    lemma_mul_i64_in_i128, xsd_boolean_iri, xsd_boolean};
use crate::text::{seq_char_lt, str_lt};

verus! {

// ---------------------------------------------------------------------------
// The mathematical semantics of cell-level evaluation
// ---------------------------------------------------------------------------

/// A boolean literal result cell.
pub open spec fn lit_bool_v(x: bool) -> Option<TermV> {
    Option::Some(TermV::Lit(xsd_boolean_iri(), LitV::B(x)))
}

/// The exact rational value of a numeric term, as (numerator, denominator).
pub open spec fn num_of(t: TermV) -> Option<(int, int)> {
    match t {
        TermV::Lit(_, LitV::I(n)) => Option::Some((n, 1int)),
        TermV::Lit(_, LitV::F(n, d)) => Option::Some((n, d)),
        _ => Option::None,
    }
}

/// The boolean value of a boolean term.
pub open spec fn bool_of(t: TermV) -> Option<bool> {
    match t {
        TermV::Lit(_, LitV::B(b)) => Option::Some(b),
        _ => Option::None,
    }
}

pub open spec fn fits_i64(n: int) -> bool {
    -0x8000_0000_0000_0000 <= n <= 0x7fff_ffff_ffff_ffff
}

/// Fits the exact rational `n / d` (`d > 0`) into the value family of the
/// recorded result datatype: an integer-family result must be an integer
/// that a 64-bit value can hold; a float-family result must have a
/// representable numerator and denominator; any other family is undefined.
pub open spec fn fit_result(n: int, d: int, out_dt: Seq<char>) -> Option<LitV>
    recommends
        d > 0,
{
    if is_integer_datatype(out_dt) {
        if n % d == 0 && fits_i64(n / d) {
            Option::Some(LitV::I(n / d))
        } else {
            Option::None
        }
    } else if is_float_datatype(out_dt) {
        if fits_i64(n) && d <= 0x7fff_ffff_ffff_ffff {
            Option::Some(LitV::F(n, d))
        } else {
            Option::None
        }
    } else {
        Option::None
    }
}

/// Exact rational arithmetic on two numeric cells, fitted to the recorded
/// result datatype.  Unbound or non-numeric operands, division by zero,
/// and unrepresentable results evaluate to the unbound cell.
pub open spec fn eval_arith(
    op: Operator,
    a: Option<TermV>,
    b: Option<TermV>,
    out_dt: Seq<char>,
) -> Option<TermV> {
    match (a, b) {
        (Option::Some(x), Option::Some(y)) => match (num_of(x), num_of(y)) {
            (Option::Some(p), Option::Some(q)) => {
                let n1 = p.0;
                let d1 = p.1;
                let n2 = q.0;
                let d2 = q.1;
                let n0 = if op == Operator::Plus {
                    n1 * d2 + n2 * d1
                } else if op == Operator::Minus {
                    n1 * d2 - n2 * d1
                } else if op == Operator::Multiply {
                    n1 * n2
                } else {
                    n1 * d2
                };
                let d0 = if op == Operator::Multiply || op == Operator::Plus || op
                    == Operator::Minus {
                    d1 * d2
                } else {
                    d1 * n2
                };
                if d0 == 0 {
                    Option::None
                } else {
                    let n = if d0 < 0 { -n0 } else { n0 };
                    let d = if d0 < 0 { -d0 } else { d0 };
                    match fit_result(n, d, out_dt) {
                        Option::Some(v) => Option::Some(TermV::Lit(out_dt, v)),
                        Option::None => Option::None,
                    }
                }
            },
            _ => Option::None,
        },
        _ => Option::None,
    }
}

/// Value equality: numeric terms compare as rationals across numeric
/// datatypes; all other terms compare by kind, datatype and value.
pub open spec fn val_eq(x: TermV, y: TermV) -> bool {
    match (num_of(x), num_of(y)) {
        (Option::Some(p), Option::Some(q)) => p.0 * q.1 == q.0 * p.1,
        _ => term_v_same(x, y),
    }
}

/// Whether an order comparison of the two terms is defined.
pub open spec fn cmp_defined(x: TermV, y: TermV) -> bool {
    ||| (num_of(x) matches Option::Some(_) && num_of(y) matches Option::Some(_))
    ||| (x matches TermV::Lit(_, LitV::S(_)) && y matches TermV::Lit(_, LitV::S(_)))
    ||| (x matches TermV::Lit(_, LitV::B(_)) && y matches TermV::Lit(_, LitV::B(_)))
    ||| (x matches TermV::Lit(_, LitV::D(_)) && y matches TermV::Lit(_, LitV::D(_)))
}

/// Strict order on two comparable terms: numerics as rationals, strings
/// lexicographically, booleans with false first, datetimes by instant.
pub open spec fn val_lt(x: TermV, y: TermV) -> bool
    recommends
        cmp_defined(x, y),
{
    match (num_of(x), num_of(y)) {
        (Option::Some(p), Option::Some(q)) => p.0 * q.1 < q.0 * p.1,
        _ => match (x, y) {
            (TermV::Lit(_, LitV::S(a)), TermV::Lit(_, LitV::S(b))) => seq_char_lt(a, b),
            (TermV::Lit(_, LitV::B(a)), TermV::Lit(_, LitV::B(b))) => !a && b,
            (TermV::Lit(_, LitV::D(a)), TermV::Lit(_, LitV::D(b))) => a < b,
            _ => false,
        },
    }
}

/// An order comparison of two cells: boolean when both are bound and
/// comparable, unbound otherwise.
pub open spec fn eval_cmp(op: Operator, a: Option<TermV>, b: Option<TermV>) -> Option<TermV> {
    match (a, b) {
        (Option::Some(x), Option::Some(y)) => {
            if cmp_defined(x, y) {
                let lt = val_lt(x, y);
                let gt = val_lt(y, x);
                if op == Operator::Lt {
                    lit_bool_v(lt)
                } else if op == Operator::LtEq {
                    lit_bool_v(!gt)
                } else if op == Operator::Gt {
                    lit_bool_v(gt)
                } else {
                    lit_bool_v(!lt)
                }
            } else {
                Option::None
            }
        },
        _ => Option::None,
    }
}

/// Equality of two cells: boolean when both are bound, unbound otherwise.
pub open spec fn eval_eq(a: Option<TermV>, b: Option<TermV>) -> Option<TermV> {
    match (a, b) {
        (Option::Some(x), Option::Some(y)) => lit_bool_v(val_eq(x, y)),
        _ => Option::None,
    }
}

/// Conjunction or disjunction of two boolean cells; any unbound or
/// non-boolean operand makes the result unbound.
pub open spec fn eval_logic(op: Operator, a: Option<TermV>, b: Option<TermV>) -> Option<TermV> {
    match (a, b) {
        (Option::Some(x), Option::Some(y)) => match (bool_of(x), bool_of(y)) {
            (Option::Some(p), Option::Some(q)) => {
                if op == Operator::And {
                    lit_bool_v(p && q)
                } else {
                    lit_bool_v(p || q)
                }
            },
            _ => Option::None,
        },
        _ => Option::None,
    }
}

/// The value of one binary expression on one row.  `out_dt` is the
/// datatype recorded for the result column; only arithmetic reads it.
pub open spec fn eval_binary(
    op: Operator,
    a: Option<TermV>,
    b: Option<TermV>,
    out_dt: Seq<char>,
) -> Option<TermV> {
    match op {
        Operator::Eq => eval_eq(a, b),
        Operator::Lt | Operator::LtEq | Operator::Gt | Operator::GtEq => eval_cmp(op, a, b),
        Operator::And | Operator::Or => eval_logic(op, a, b),
        Operator::Plus | Operator::Minus | Operator::Multiply | Operator::Divide => eval_arith(
            op,
            a,
            b,
            out_dt,
        ),
    }
}

/// Logical negation of a boolean cell.
pub open spec fn eval_not(a: Option<TermV>) -> Option<TermV> {
    match a {
        Option::Some(x) => match bool_of(x) {
            Option::Some(p) => lit_bool_v(!p),
            Option::None => Option::None,
        },
        Option::None => Option::None,
    }
}

/// Whether a cell is bound, as a boolean cell.
pub open spec fn eval_bound(a: Option<TermV>) -> Option<TermV> {
    lit_bool_v(a matches Option::Some(_))
}

/// A conditional: the then-cell when the condition is boolean true, the
/// else-cell when boolean false, unbound otherwise.
pub open spec fn eval_if(c: Option<TermV>, t: Option<TermV>, e: Option<TermV>) -> Option<TermV> {
    match c {
        Option::Some(x) => match bool_of(x) {
            Option::Some(true) => t,
            Option::Some(false) => e,
            Option::None => Option::None,
        },
        Option::None => Option::None,
    }
}

/// The first bound cell of the argument cells.
pub open spec fn eval_coalesce(cs: Seq<Option<TermV>>) -> Option<TermV>
    decreases cs.len(),
{
    if cs.len() == 0 {
        Option::None
    } else {
        match cs[0] {
            Option::Some(x) => Option::Some(x),
            Option::None => eval_coalesce(cs.skip(1)),
        }
    }
}

/// Membership of a cell in a candidate list, built exactly as a left fold
/// of disjunctions of equality tests, starting from boolean false.  An
/// empty candidate list therefore yields false whatever the left cell is.
pub open spec fn eval_in(l: Option<TermV>, cs: Seq<Option<TermV>>) -> Option<TermV>
    decreases cs.len(),
{
    if cs.len() == 0 {
        lit_bool_v(false)
    } else {
        eval_logic(Operator::Or, eval_in(l, cs.drop_last()), eval_eq(l, cs.last()))
    }
}

/// An `IN` result is always unbound or a boolean literal.
pub proof fn lemma_eval_in_boolean(l: Option<TermV>, cs: Seq<Option<TermV>>)
    ensures
        match eval_in(l, cs) {
            Option::Some(tv) => tv matches TermV::Lit(dd, v) && dd == xsd_boolean_iri() && (
            v matches LitV::B(_)),
            Option::None => true,
        },
    decreases cs.len(),
{
    if cs.len() == 0 {
    } else {
        lemma_eval_in_boolean(l, cs.drop_last());
    }
}

// ---------------------------------------------------------------------------
// Executable evaluation
// ---------------------------------------------------------------------------

/// Every bound operand is a well-formed term.
pub open spec fn cell_term_wf(c: Option<Term>) -> bool {
    match c {
        Option::None => true,
        Option::Some(t) => term_wf(t),
    }
}

/// A freshly built boolean literal term.
pub fn bool_term(x: bool) -> (t: Term)
    ensures
        term_v(t) == TermV::Lit(xsd_boolean_iri(), LitV::B(x)),
        term_wf(t),
{
    Term::Lit(xsd_boolean(), LitValue::B(x))
}

/// The rational value of a numeric term.
fn frac_of(t: &Term) -> (r: Option<(i64, i64)>)
    ensures
        match r {
            Option::Some(p) => num_of(term_v(*t)) == Option::Some((p.0 as int, p.1 as int)),
            Option::None => num_of(term_v(*t)) matches Option::None,
        },
{
    match t {
        Term::Lit(_, LitValue::I(n)) => Option::Some((*n, 1i64)),
        Term::Lit(_, LitValue::F(n, d)) => Option::Some((*n, *d)),
        _ => Option::None,
    }
}

/// The boolean value of a boolean term.
fn exec_bool_of(t: &Term) -> (r: Option<bool>)
    ensures
        match r {
            Option::Some(b) => bool_of(term_v(*t)) == Option::Some(b),
            Option::None => bool_of(term_v(*t)) matches Option::None,
        },
{
    match t {
        Term::Lit(_, LitValue::B(b)) => Option::Some(*b),
        _ => Option::None,
    }
}

proof fn lemma_num_den_prod(n: int, d: int)
    requires
        -0x8000_0000_0000_0000 <= n <= 0x7fff_ffff_ffff_ffff,
        0 <= d <= 0x7fff_ffff_ffff_ffff,
    ensures
        -0x3fff_ffff_ffff_ffff_8000_0000_0000_0000 <= n * d
            <= 0x3fff_ffff_ffff_ffff_8000_0000_0000_0000,
{
    assert(-0x3fff_ffff_ffff_ffff_8000_0000_0000_0000 <= n * d
        <= 0x3fff_ffff_ffff_ffff_8000_0000_0000_0000) by (nonlinear_arith)
        requires
            -0x8000_0000_0000_0000 <= n <= 0x7fff_ffff_ffff_ffff,
            0 <= d <= 0x7fff_ffff_ffff_ffff,
    ;
}

/// Fits the exact rational `n / d` into the recorded result family,
/// reflecting `fit_result`.
fn exec_fit_result(n: i128, d: i128, int_family: bool, float_family: bool, out_dt: Ghost<
    Seq<char>>) -> (r: Option<LitValue>)
    requires
        d > 0,
        int_family == is_integer_datatype(out_dt@),
        float_family == is_float_datatype(out_dt@),
        n > -0x8000_0000_0000_0000_0000_0000_0000_0000,
    ensures
        match r {
            Option::Some(v) => fit_result(n as int, d as int, out_dt@) == Option::Some(lit_v(v))
                && lit_value_fits(out_dt@, v),
            Option::None => fit_result(n as int, d as int, out_dt@) matches Option::None,
        },
{
    if int_family {
        let n_mag: u128 = if n < 0 {
            (-n) as u128
        } else {
            n as u128
        };
        let d_mag: u128 = d as u128;
        let rem: u128 = n_mag % d_mag;
        let q_mag: u128 = n_mag / d_mag;
        proof {
            vstd::arithmetic::div_mod::lemma_fundamental_div_mod(n_mag as int, d_mag as int);
            vstd::arithmetic::div_mod::lemma_mod_bound(n_mag as int, d_mag as int);
            // relate the signed quotient and remainder to the magnitudes
            if n >= 0 {
                vstd::arithmetic::div_mod::lemma_fundamental_div_mod_converse(
                    n as int,
                    d as int,
                    q_mag as int,
                    rem as int,
                );
            } else if rem == 0 {
                assert(n as int == (-(q_mag as int)) * (d as int) + 0) by (nonlinear_arith)
                    requires
                        n as int == -(n_mag as int),
                        n_mag as int == (d_mag as int) * (q_mag as int) + (rem as int),
                        rem as int == 0,
                        d_mag as int == d as int,
                ;
                vstd::arithmetic::div_mod::lemma_fundamental_div_mod_converse(
                    n as int,
                    d as int,
                    -(q_mag as int),
                    0,
                );
            } else {
                assert(n as int == (-(q_mag as int) - 1) * (d as int) + ((d as int) - (
                rem as int))) by (nonlinear_arith)
                    requires
                        n as int == -(n_mag as int),
                        n_mag as int == (d_mag as int) * (q_mag as int) + (rem as int),
                        d_mag as int == d as int,
                ;
                vstd::arithmetic::div_mod::lemma_fundamental_div_mod_converse(
                    n as int,
                    d as int,
                    -(q_mag as int) - 1,
                    (d as int) - (rem as int),
                );
            }
        }
        if rem != 0 {
            return Option::None;
        }
        if n < 0 {
            if q_mag > 0x8000_0000_0000_0000 {
                return Option::None;
            }
            let q: i128 = -(q_mag as i128);
            Option::Some(LitValue::I(q as i64))
        } else {
            if q_mag > 0x7fff_ffff_ffff_ffff {
                return Option::None;
            }
            Option::Some(LitValue::I(q_mag as i64))
        }
    } else if float_family {
        if -0x8000_0000_0000_0000i128 <= n && n <= 0x7fff_ffff_ffff_ffffi128 && d
            <= 0x7fff_ffff_ffff_ffffi128 {
            Option::Some(LitValue::F(n as i64, d as i64))
        } else {
            Option::None
        }
    } else {
        Option::None
    }
}

/// Fits a wide value into 64 bits.
pub fn fit_to_i64(x: i128) -> (r: Option<i64>)
    ensures
        match r {
            Option::Some(v) => fits_i64(x as int) && v as int == x as int,
            Option::None => !fits_i64(x as int),
        },
{
    if -0x8000_0000_0000_0000i128 <= x && x <= 0x7fff_ffff_ffff_ffffi128 {
        Option::Some(x as i64)
    } else {
        Option::None
    }
}

/// Strict value order of two terms, reflecting `val_lt`; terms that are
/// not comparable are never below one another.
pub fn exec_val_lt(x: &Term, y: &Term) -> (r: bool)
    ensures
        r == val_lt(term_v(*x), term_v(*y)),
{
    let fx = frac_of(x);
    let fy = frac_of(y);
    match (fx, fy) {
        (Option::Some(p), Option::Some(q)) => {
            let l: i128 = mul_i64(p.0, q.1);
            let rr: i128 = mul_i64(q.0, p.1);
            l < rr
        },
        _ => {
            match (x, y) {
                (Term::Lit(_, LitValue::S(sa)), Term::Lit(_, LitValue::S(sb))) => str_lt(
                    sa.as_str(),
                    sb.as_str(),
                ),
                (Term::Lit(_, LitValue::B(ba)), Term::Lit(_, LitValue::B(bb))) => !*ba && *bb,
                (Term::Lit(_, LitValue::D(da)), Term::Lit(_, LitValue::D(db))) => *da < *db,
                _ => false,
            }
        },
    }
}

/// Value equality of two terms, reflecting `val_eq`.
pub fn exec_val_eq(x: &Term, y: &Term) -> (r: bool)
    ensures
        r == val_eq(term_v(*x), term_v(*y)),
{
    let fx = frac_of(x);
    let fy = frac_of(y);
    match (fx, fy) {
        (Option::Some(p), Option::Some(q)) => {
            let l: i128 = mul_i64(p.0, q.1);
            let rr: i128 = mul_i64(q.0, p.1);
            l == rr
        },
        _ => term_eq(x, y),
    }
}

/// Evaluates one binary expression on one row's operand cells.  `out_dt`
/// is the datatype recorded for the result column; only arithmetic reads
/// it.  The result is always unbound or a literal of the result datatype.
pub fn eval_binary_cell(op: Operator, a: &Option<Term>, b: &Option<Term>, out_dt: &String) -> (r:
    Option<Term>)
    requires
        cell_term_wf(*a),
        cell_term_wf(*b),
    ensures
        cell_v(r) == eval_binary(op, cell_v(*a), cell_v(*b), out_dt@),
        match r {
            Option::Some(t) => term_wf(t) && (term_v(t) matches TermV::Lit(dd, _) && dd
                == result_dt(op, out_dt@)),
            Option::None => true,
        },
{
    match op {
        Operator::Eq => {
            match (a, b) {
                (Option::Some(x), Option::Some(y)) => {
                    let e = exec_val_eq(x, y);
                    Option::Some(bool_term(e))
                },
                _ => Option::None,
            }
        },
        Operator::Lt | Operator::LtEq | Operator::Gt | Operator::GtEq => {
            match (a, b) {
                (Option::Some(x), Option::Some(y)) => {
                    let fx = frac_of(x);
                    let fy = frac_of(y);
                    match (fx, fy) {
                        (Option::Some(p), Option::Some(q)) => {
                            let l: i128 = mul_i64(p.0, q.1);
                            let rr: i128 = mul_i64(q.0, p.1);
                            let lt: bool = l < rr;
                            let gt: bool = rr < l;
                            Option::Some(bool_term(pick_cmp(op, lt, gt)))
                        },
                        _ => {
                            match (x, y) {
                                (Term::Lit(_, LitValue::S(sa)), Term::Lit(_, LitValue::S(sb))) => {
                                    let lt = str_lt(sa.as_str(), sb.as_str());
                                    let gt = str_lt(sb.as_str(), sa.as_str());
                                    Option::Some(bool_term(pick_cmp(op, lt, gt)))
                                },
                                (Term::Lit(_, LitValue::B(ba)), Term::Lit(_, LitValue::B(bb))) => {
                                    let lt = !*ba && *bb;
                                    let gt = !*bb && *ba;
                                    Option::Some(bool_term(pick_cmp(op, lt, gt)))
                                },
                                (Term::Lit(_, LitValue::D(da)), Term::Lit(_, LitValue::D(db))) => {
                                    let lt = *da < *db;
                                    let gt = *db < *da;
                                    Option::Some(bool_term(pick_cmp(op, lt, gt)))
                                },
                                _ => Option::None,
                            }
                        },
                    }
                },
                _ => Option::None,
            }
        },
        Operator::And | Operator::Or => {
            match (a, b) {
                (Option::Some(x), Option::Some(y)) => {
                    let bx = exec_bool_of(x);
                    let by = exec_bool_of(y);
                    match (bx, by) {
                        (Option::Some(p), Option::Some(q)) => {
                            if op == Operator::And {
                                Option::Some(bool_term(p && q))
                            } else {
                                Option::Some(bool_term(p || q))
                            }
                        },
                        _ => Option::None,
                    }
                },
                _ => Option::None,
            }
        },
        Operator::Plus | Operator::Minus | Operator::Multiply | Operator::Divide => {
            match (a, b) {
                (Option::Some(x), Option::Some(y)) => {
                    let fx = frac_of(x);
                    let fy = frac_of(y);
                    match (fx, fy) {
                        (Option::Some(p), Option::Some(q)) => {
                            let n1: i64 = p.0;
                            let d1: i64 = p.1;
                            let n2: i64 = q.0;
                            let d2: i64 = q.1;
                            proof {
                                lemma_num_den_prod(n1 as int, d2 as int);
                                lemma_num_den_prod(n2 as int, d1 as int);
                                lemma_num_den_prod(d1 as int, d2 as int);
                                lemma_mul_i64_in_i128(n1 as int, n2 as int);
                            }
                            let n0: i128 = if op == Operator::Plus {
                                mul_i64(n1, d2) + mul_i64(n2, d1)
                            } else if op == Operator::Minus {
                                mul_i64(n1, d2) - mul_i64(n2, d1)
                            } else if op == Operator::Multiply {
                                mul_i64(n1, n2)
                            } else {
                                mul_i64(n1, d2)
                            };
                            let d0: i128 = if op == Operator::Divide {
                                mul_i64(d1, n2)
                            } else {
                                mul_i64(d1, d2)
                            };
                            if d0 == 0 {
                                return Option::None;
                            }
                            let n: i128 = if d0 < 0 {
                                -n0
                            } else {
                                n0
                            };
                            let d: i128 = if d0 < 0 {
                                -d0
                            } else {
                                d0
                            };
                            let int_family = crate::terms::literal_is_integer(out_dt);
                            let float_family = crate::terms::literal_is_float(out_dt);
                            match exec_fit_result(
                                n,
                                d,
                                int_family,
                                float_family,
                                Ghost(out_dt@),
                            ) {
                                Option::Some(v) => Option::Some(
                                    Term::Lit(out_dt.clone(), v),
                                ),
                                Option::None => Option::None,
                            }
                        },
                        _ => Option::None,
                    }
                },
                _ => Option::None,
            }
        },
    }
}

/// The datatype of the result column: the caller's recorded datatype for
/// arithmetic, boolean for every comparison and logical operator.
pub open spec fn result_dt(op: Operator, out_dt: Seq<char>) -> Seq<char> {
    match op {
        Operator::Plus | Operator::Minus | Operator::Multiply | Operator::Divide => out_dt,
        _ => xsd_boolean_iri(),
    }
}

/// Chooses the comparison outcome for the operator from strict
/// less-than in both directions.
fn pick_cmp(op: Operator, lt: bool, gt: bool) -> (r: bool)
    requires
        op == Operator::Lt || op == Operator::LtEq || op == Operator::Gt || op == Operator::GtEq,
    ensures
        r == (if op == Operator::Lt {
            lt
        } else if op == Operator::LtEq {
            !gt
        } else if op == Operator::Gt {
            gt
        } else {
            !lt
        }),
{
    if op == Operator::Lt {
        lt
    } else if op == Operator::LtEq {
        !gt
    } else if op == Operator::Gt {
        gt
    } else {
        !lt
    }
}

/// Logical negation of a boolean cell, reflecting `eval_not`.
pub fn eval_not_cell(a: &Option<Term>) -> (r: Option<Term>)
    ensures
        cell_v(r) == eval_not(cell_v(*a)),
        match r {
            Option::Some(t) => term_wf(t) && (term_v(t) matches TermV::Lit(dd, _) && dd
                == xsd_boolean_iri()),
            Option::None => true,
        },
{
    match a {
        Option::Some(x) => {
            match exec_bool_of(x) {
                Option::Some(p) => Option::Some(bool_term(!p)),
                Option::None => Option::None,
            }
        },
        Option::None => Option::None,
    }
}

/// A conditional on one row, reflecting `eval_if`.
pub fn eval_if_cell(c: &Option<Term>, t: &Option<Term>, e: &Option<Term>) -> (r: Option<Term>)
    ensures
        cell_v(r) == eval_if(cell_v(*c), cell_v(*t), cell_v(*e)),
{
    match c {
        Option::Some(x) => {
            match exec_bool_of(x) {
                Option::Some(true) => crate::terms::clone_cell(t),
                Option::Some(false) => crate::terms::clone_cell(e),
                Option::None => Option::None,
            }
        },
        Option::None => Option::None,
    }
}

/// Appending a cell to a coalesce argument list takes effect only when
/// every earlier argument is unbound.
pub proof fn lemma_coalesce_push(s: Seq<Option<TermV>>, x: Option<TermV>)
    ensures
        eval_coalesce(s.push(x)) == (match eval_coalesce(s) {
            Option::Some(v) => Option::Some(v),
            Option::None => x,
        }),
    decreases s.len(),
{
    if s.len() == 0 {
        assert(s.push(x)[0] == x);
        assert(s.push(x).skip(1) =~= Seq::<Option<TermV>>::empty());
        match x {
            Option::Some(v) => {
                assert(eval_coalesce(s.push(x)) == Option::Some(v));
            },
            Option::None => {
                assert(eval_coalesce(s.push(x)) == eval_coalesce(s.push(x).skip(1)));
                assert(eval_coalesce(Seq::<Option<TermV>>::empty()) == Option::<TermV>::None);
            },
        }
    } else {
        assert(s.push(x)[0] == s[0]);
        assert(s.push(x).skip(1) =~= s.skip(1).push(x));
        lemma_coalesce_push(s.skip(1), x);
        match s[0] {
            Option::Some(v) => {
                assert(eval_coalesce(s) == Option::Some(v));
                assert(eval_coalesce(s.push(x)) == Option::Some(v));
            },
            Option::None => {
                assert(eval_coalesce(s) == eval_coalesce(s.skip(1)));
                assert(eval_coalesce(s.push(x)) == eval_coalesce(s.skip(1).push(x)));
            },
        }
    }
}

/// Boundness of a cell, reflecting `eval_bound`.
pub fn eval_bound_cell(a: &Option<Term>) -> (r: Option<Term>)
    ensures
        cell_v(r) == eval_bound(cell_v(*a)),
        match r {
            Option::Some(t) => term_wf(t) && (term_v(t) matches TermV::Lit(dd, _) && dd
                == xsd_boolean_iri()),
            Option::None => true,
        },
{
    match a {
        Option::Some(_) => Option::Some(bool_term(true)),
        Option::None => Option::Some(bool_term(false)),
    }
}

} // verus!
