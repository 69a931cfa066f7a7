use vstd::prelude::*;
use crate::ast::{Context, Expression, Function};
use crate::constants::{datetime_as_nanos_iri, datetime_as_seconds_iri, nanos_as_datetime_iri,
    seconds_as_datetime_iri, modulus_iri, floor_datetime_to_seconds_interval_iri};
use crate::date::{year_of_ms, month_of_ms, day_of_ms, hour_of_ms, minute_of_ms, second_of_ms,
    year_of_ms_exec, month_of_ms_exec, day_of_ms_exec, hour_of_ms_exec, minute_of_ms_exec,
    second_of_ms_exec};
use crate::errors::QueryProcessingError;
use crate::eval::{cell_term_wf, fits_i64};
use crate::expressions::{compiles_to, ctx_names, drop_inner_contexts};
use crate::solution_mapping::{SolutionMappings, find_col, push_column};
use crate::terms::{RDFNodeType, Term, LitValue, TermV, LitV, term_v, cell_v, term_wf, cell_fits,
    type_wf, type_clone_ok, xsd_boolean_iri, xsd_integer_iri, xsd_string_iri, xsd_date_time_iri,
    xsd_unsigned_int_iri, xsd_boolean, xsd_integer, xsd_string, xsd_date_time, xsd_unsigned_int};
use crate::text::{is_substring_of, is_prefix_of, is_suffix_of, dec_int, str_contains,
    str_starts_with, str_ends_with, i64_to_string};

verus! {

/// The functions compiled from one argument column.
pub open spec fn is_unary_func(f: Function) -> bool {
    match f {
        Function::Year
        | Function::Month
        | Function::Day
        | Function::Hours
        | Function::Minutes
        | Function::Seconds
        | Function::Abs
        | Function::Ceil
        | Function::Floor
        | Function::Round => true,
        Function::Custom(nn) => {
            ||| nn@ == xsd_integer_iri()
            ||| nn@ == xsd_string_iri()
            ||| nn@ == datetime_as_nanos_iri()
            ||| nn@ == datetime_as_seconds_iri()
            ||| nn@ == nanos_as_datetime_iri()
            ||| nn@ == seconds_as_datetime_iri()
        },
        _ => false,
    }
}

/// The functions compiled from two argument columns.
pub open spec fn is_binary_func(f: Function) -> bool {
    match f {
        Function::Contains | Function::StrStarts | Function::StrEnds => true,
        Function::Custom(nn) => nn@ == modulus_iri() || nn@
            == floor_datetime_to_seconds_interval_iri(),
        _ => false,
    }
}

/// The fixed result datatype of a unary function, or `None` for the
/// functions that keep the argument's type (`ABS`, `ROUND`).
pub open spec fn unary_fixed_dt(f: Function) -> Option<Seq<char>> {
    match f {
        Function::Year | Function::Month | Function::Day | Function::Hours | Function::Minutes
            | Function::Seconds => Option::Some(xsd_unsigned_int_iri()),
        Function::Ceil | Function::Floor => Option::Some(xsd_integer_iri()),
        Function::Abs | Function::Round => Option::None,
        Function::Custom(nn) => {
            if nn@ == xsd_integer_iri() {
                Option::Some(xsd_integer_iri())
            } else if nn@ == xsd_string_iri() {
                Option::Some(xsd_string_iri())
            } else if nn@ == datetime_as_nanos_iri() {
                Option::Some(xsd_integer_iri())
            } else if nn@ == datetime_as_seconds_iri() {
                Option::Some(xsd_integer_iri())
            } else if nn@ == nanos_as_datetime_iri() {
                Option::Some(xsd_date_time_iri())
            } else {
                Option::Some(xsd_date_time_iri())
            }
        },
        _ => Option::None,
    }
}

/// The fixed result datatype of a binary function.
pub open spec fn binary_fixed_dt(f: Function) -> Seq<char> {
    match f {
        Function::Contains | Function::StrStarts | Function::StrEnds => xsd_boolean_iri(),
        Function::Custom(nn) => {
            if nn@ == modulus_iri() {
                xsd_integer_iri()
            } else {
                xsd_date_time_iri()
            }
        },
        _ => xsd_boolean_iri(),
    }
}

/// An unsigned-integer result cell, unbound when out of range.
pub open spec fn ui_cell(x: int) -> Option<TermV> {
    if 0 <= x <= 0xffff_ffff {
        Option::Some(TermV::Lit(xsd_unsigned_int_iri(), LitV::I(x)))
    } else {
        Option::None
    }
}

/// An integer result cell, unbound when it does not fit 64 bits.
pub open spec fn int_cell(x: int) -> Option<TermV> {
    if fits_i64(x) {
        Option::Some(TermV::Lit(xsd_integer_iri(), LitV::I(x)))
    } else {
        Option::None
    }
}

/// A datetime result cell, unbound when it does not fit 64 bits.
pub open spec fn dt_cell(x: int) -> Option<TermV> {
    if fits_i64(x) {
        Option::Some(TermV::Lit(xsd_date_time_iri(), LitV::D(x)))
    } else {
        Option::None
    }
}

/// The value of a unary function on one argument cell.
pub open spec fn eval_unary_func(f: Function, a: Option<TermV>) -> Option<TermV> {
    match a {
        Option::None => Option::None,
        Option::Some(tv) => match tv {
            TermV::Lit(dt, v) => eval_unary_lit(f, dt, v),
            TermV::Iri(s) => {
                match f {
                    Function::Custom(nn) => {
                        if nn@ == xsd_integer_iri() {
                            Option::None
                        } else if nn@ == xsd_string_iri() {
                            Option::Some(TermV::Lit(xsd_string_iri(), LitV::S(s)))
                        } else {
                            Option::None
                        }
                    },
                    _ => Option::None,
                }
            },
            _ => Option::None,
        },
    }
}

/// The value of a unary function on one bound literal value.
pub open spec fn eval_unary_lit(f: Function, dt: Seq<char>, v: LitV) -> Option<TermV> {
    match f {
        Function::Year => match v {
            LitV::D(ms) => ui_cell(year_of_ms(ms)),
            _ => Option::None,
        },
        Function::Month => match v {
            LitV::D(ms) => ui_cell(month_of_ms(ms)),
            _ => Option::None,
        },
        Function::Day => match v {
            LitV::D(ms) => ui_cell(day_of_ms(ms)),
            _ => Option::None,
        },
        Function::Hours => match v {
            LitV::D(ms) => ui_cell(hour_of_ms(ms)),
            _ => Option::None,
        },
        Function::Minutes => match v {
            LitV::D(ms) => ui_cell(minute_of_ms(ms)),
            _ => Option::None,
        },
        Function::Seconds => match v {
            LitV::D(ms) => ui_cell(second_of_ms(ms)),
            _ => Option::None,
        },
        Function::Abs => match v {
            LitV::I(n) => {
                if fits_i64(if n < 0 {
                    -n
                } else {
                    n
                }) {
                    Option::Some(TermV::Lit(dt, LitV::I(if n < 0 {
                        -n
                    } else {
                        n
                    })))
                } else {
                    Option::None
                }
            },
            LitV::F(n, d) => {
                if fits_i64(if n < 0 {
                    -n
                } else {
                    n
                }) {
                    Option::Some(TermV::Lit(dt, LitV::F(if n < 0 {
                        -n
                    } else {
                        n
                    }, d)))
                } else {
                    Option::None
                }
            },
            _ => Option::None,
        },
        Function::Ceil => match v {
            LitV::I(n) => int_cell(n),
            LitV::F(n, d) => int_cell(-((-n) / d)),
            _ => Option::None,
        },
        Function::Floor => match v {
            LitV::I(n) => int_cell(n),
            LitV::F(n, d) => int_cell(n / d),
            _ => Option::None,
        },
        Function::Round => match v {
            LitV::I(n) => Option::Some(TermV::Lit(dt, LitV::I(n))),
            LitV::F(n, d) => {
                let r = if n >= 0 {
                    (2 * n + d) / (2 * d)
                } else {
                    -((2 * (-n) + d) / (2 * d))
                };
                if fits_i64(r) {
                    Option::Some(TermV::Lit(dt, LitV::F(r, 1)))
                } else {
                    Option::None
                }
            },
            _ => Option::None,
        },
        Function::Custom(nn) => {
            if nn@ == xsd_integer_iri() {
                match v {
                    LitV::I(n) => int_cell(n),
                    LitV::F(n, d) => int_cell(
                        if n >= 0 {
                            n / d
                        } else {
                            -((-n) / d)
                        },
                    ),
                    LitV::B(b) => int_cell(if b {
                        1int
                    } else {
                        0int
                    }),
                    LitV::D(ms) => int_cell(ms),
                    _ => Option::None,
                }
            } else if nn@ == xsd_string_iri() {
                match v {
                    LitV::I(n) => Option::Some(TermV::Lit(xsd_string_iri(), LitV::S(dec_int(n)))),
                    LitV::B(b) => Option::Some(
                        TermV::Lit(xsd_string_iri(), LitV::S(if b {
                            "true"@
                        } else {
                            "false"@
                        })),
                    ),
                    LitV::S(s) => Option::Some(TermV::Lit(xsd_string_iri(), LitV::S(s))),
                    _ => Option::None,
                }
            } else if nn@ == datetime_as_nanos_iri() {
                match v {
                    LitV::D(ms) => int_cell(ms * 1_000_000),
                    _ => Option::None,
                }
            } else if nn@ == datetime_as_seconds_iri() {
                match v {
                    LitV::D(ms) => if ms >= 0 {
                        int_cell(ms / 1_000)
                    } else {
                        Option::None
                    },
                    _ => Option::None,
                }
            } else if nn@ == nanos_as_datetime_iri() {
                match v {
                    LitV::I(n) => if n >= 0 {
                        dt_cell(n / 1_000_000)
                    } else {
                        Option::None
                    },
                    _ => Option::None,
                }
            } else if nn@ == seconds_as_datetime_iri() {
                match v {
                    LitV::I(s) => dt_cell(s * 1_000),
                    _ => Option::None,
                }
            } else {
                Option::None
            }
        },
        _ => Option::None,
    }
}

/// The value of a binary function on two argument cells.
pub open spec fn eval_binary_func(f: Function, a: Option<TermV>, b: Option<TermV>) -> Option<
    TermV,
> {
    match (a, b) {
        (Option::Some(TermV::Lit(dta, va)), Option::Some(TermV::Lit(dtb, vb))) => {
            match f {
                Function::Contains => match (va, vb) {
                    (LitV::S(sa), LitV::S(sb)) => Option::Some(
                        TermV::Lit(xsd_boolean_iri(), LitV::B(is_substring_of(sb, sa))),
                    ),
                    _ => Option::None,
                },
                Function::StrStarts => match (va, vb) {
                    (LitV::S(sa), LitV::S(sb)) => Option::Some(
                        TermV::Lit(xsd_boolean_iri(), LitV::B(is_prefix_of(sb, sa))),
                    ),
                    _ => Option::None,
                },
                Function::StrEnds => match (va, vb) {
                    (LitV::S(sa), LitV::S(sb)) => Option::Some(
                        TermV::Lit(xsd_boolean_iri(), LitV::B(is_suffix_of(sb, sa))),
                    ),
                    _ => Option::None,
                },
                Function::Custom(nn) => {
                    if nn@ == modulus_iri() {
                        match (va, vb) {
                            (LitV::I(x), LitV::I(y)) => {
                                if x >= 0 && y > 0 {
                                    int_cell(x % y)
                                } else {
                                    Option::None
                                }
                            },
                            _ => Option::None,
                        }
                    } else if nn@ == floor_datetime_to_seconds_interval_iri() {
                        match (va, vb) {
                            (LitV::D(ms), LitV::I(iv)) => {
                                if ms >= 0 && iv > 0 {
                                    let s0 = ms / 1_000;
                                    let bucket = s0 - s0 % iv;
                                    dt_cell(bucket * 1_000)
                                } else {
                                    Option::None
                                }
                            },
                            _ => Option::None,
                        }
                    } else {
                        Option::None
                    }
                },
                _ => Option::None,
            }
        },
        _ => Option::None,
    }
}

/// The value of `REGEX` on one argument cell, approximated as literal
/// substring containment of the pattern.
pub open spec fn eval_regex(a: Option<TermV>, pattern: Seq<char>) -> Option<TermV> {
    match a {
        Option::Some(TermV::Lit(_, LitV::S(s))) => Option::Some(
            TermV::Lit(xsd_boolean_iri(), LitV::B(is_substring_of(pattern, s))),
        ),
        _ => Option::None,
    }
}

/// The concatenation of the string argument cells, skipping unbound
/// cells; any bound non-string argument makes the result undefined.
pub open spec fn concat_strs(cs: Seq<Option<TermV>>) -> Option<Seq<char>>
    decreases cs.len(),
{
    if cs.len() == 0 {
        Option::Some(Seq::empty())
    } else {
        match concat_strs(cs.drop_last()) {
            Option::Some(acc) => match cs.last() {
                Option::None => Option::Some(acc),
                Option::Some(TermV::Lit(_, LitV::S(s))) => Option::Some(acc + s),
                Option::Some(_) => Option::None,
            },
            Option::None => Option::None,
        }
    }
}

/// The value of `CONCAT` on one row's argument cells.
pub open spec fn eval_concat(cs: Seq<Option<TermV>>) -> Option<TermV> {
    match concat_strs(cs) {
        Option::Some(s) => Option::Some(TermV::Lit(xsd_string_iri(), LitV::S(s))),
        Option::None => Option::None,
    }
}

fn iri_is(s: &String, l: &str) -> (r: bool)
    ensures
        r == (s@ == l@),
{
    let ls = String::from_str(l);
    crate::text::str_eq(s, &ls)
}

fn fit_i64_exec(x: i128) -> (r: Option<i64>)
    ensures
        match r {
            Option::Some(v) => fits_i64(x as int) && v as int == x as int,
            Option::None => !fits_i64(x as int),
        },
{
    if -0x8000_0000_0000_0000i128 <= x && x <= 0x7fff_ffff_ffff_ffffi128 {
        Option::Some(x as i64)
    } else {
        Option::None
    }
}

/// Evaluates a unary function on one cell.
fn eval_unary_cell(f: &Function, a: &Option<Term>) -> (r: Option<Term>)
    requires
        cell_term_wf(*a),
        is_unary_func(*f),
    ensures
        cell_v(r) == eval_unary_func(*f, cell_v(*a)),
        match r {
            Option::Some(t) => term_wf(t) && (match unary_fixed_dt(*f) {
                Option::Some(d) => term_v(t) matches TermV::Lit(dd, _) && dd == d,
                Option::None => a matches Option::Some(ta) && crate::terms::base_same(
                    crate::terms::base_of(t),
                    crate::terms::base_of(*ta),
                ),
            }),
            Option::None => true,
        },
{
    let ta = match a {
        Option::Some(t) => t,
        Option::None => {
            return Option::None;
        },
    };
    match ta {
        Term::Iri(s) => {
            match f {
                Function::Custom(nn) => {
                    if iri_is(&nn.iri, "http://www.w3.org/2001/XMLSchema#integer") {
                        Option::None
                    } else if iri_is(&nn.iri, "http://www.w3.org/2001/XMLSchema#string") {
                        proof {
                            crate::terms::lemma_xsd_string_distinct();
                        }
                        Option::Some(Term::Lit(xsd_string(), LitValue::S(s.clone())))
                    } else {
                        Option::None
                    }
                },
                _ => Option::None,
            }
        },
        Term::Blank(_) => Option::None,
        Term::Lit(dt, v) => {
            match f {
                Function::Year | Function::Month | Function::Day | Function::Hours
                    | Function::Minutes | Function::Seconds => {
                    match v {
                        LitValue::D(ms) => {
                            let part: i128 = match f {
                                Function::Year => year_of_ms_exec(*ms),
                                Function::Month => month_of_ms_exec(*ms),
                                Function::Day => day_of_ms_exec(*ms),
                                Function::Hours => hour_of_ms_exec(*ms),
                                Function::Minutes => minute_of_ms_exec(*ms),
                                _ => second_of_ms_exec(*ms),
                            };
                            if 0 <= part && part <= 0xffff_ffff {
                                Option::Some(
                                    Term::Lit(xsd_unsigned_int(), LitValue::I(part as i64)),
                                )
                            } else {
                                Option::None
                            }
                        },
                        _ => Option::None,
                    }
                },
                Function::Abs => {
                    match v {
                        LitValue::I(n) => {
                            let m: i128 = if *n < 0 {
                                -(*n as i128)
                            } else {
                                *n as i128
                            };
                            match fit_i64_exec(m) {
                                Option::Some(mv) => Option::Some(
                                    Term::Lit(dt.clone(), LitValue::I(mv)),
                                ),
                                Option::None => Option::None,
                            }
                        },
                        LitValue::F(n, d) => {
                            let m: i128 = if *n < 0 {
                                -(*n as i128)
                            } else {
                                *n as i128
                            };
                            match fit_i64_exec(m) {
                                Option::Some(mv) => Option::Some(
                                    Term::Lit(dt.clone(), LitValue::F(mv, *d)),
                                ),
                                Option::None => Option::None,
                            }
                        },
                        _ => Option::None,
                    }
                },
                Function::Ceil | Function::Floor => {
                    match v {
                        LitValue::I(n) => Option::Some(Term::Lit(xsd_integer(), LitValue::I(*n))),
                        LitValue::F(n, d) => {
                            let q: i128 = if matches!(f, Function::Floor) {
                                crate::date::fdiv128(*n as i128, *d as i128)
                            } else {
                                -crate::date::fdiv128(-(*n as i128), *d as i128)
                            };
                            match fit_i64_exec(q) {
                                Option::Some(qv) => Option::Some(
                                    Term::Lit(xsd_integer(), LitValue::I(qv)),
                                ),
                                Option::None => Option::None,
                            }
                        },
                        _ => Option::None,
                    }
                },
                Function::Round => {
                    match v {
                        LitValue::I(n) => Option::Some(Term::Lit(dt.clone(), LitValue::I(*n))),
                        LitValue::F(n, d) => {
                            let r: i128 = if *n >= 0 {
                                crate::date::fdiv128(
                                    2 * (*n as i128) + (*d as i128),
                                    2 * (*d as i128),
                                )
                            } else {
                                -crate::date::fdiv128(
                                    2 * (-(*n as i128)) + (*d as i128),
                                    2 * (*d as i128),
                                )
                            };
                            match fit_i64_exec(r) {
                                Option::Some(rv) => Option::Some(
                                    Term::Lit(dt.clone(), LitValue::F(rv, 1)),
                                ),
                                Option::None => Option::None,
                            }
                        },
                        _ => Option::None,
                    }
                },
                Function::Custom(nn) => {
                    if iri_is(&nn.iri, "http://www.w3.org/2001/XMLSchema#integer") {
                        match v {
                            LitValue::I(n) => Option::Some(
                                Term::Lit(xsd_integer(), LitValue::I(*n)),
                            ),
                            LitValue::F(n, d) => {
                                let q: i128 = if *n >= 0 {
                                    crate::date::fdiv128(*n as i128, *d as i128)
                                } else {
                                    -crate::date::fdiv128(-(*n as i128), *d as i128)
                                };
                                match fit_i64_exec(q) {
                                    Option::Some(qv) => Option::Some(
                                        Term::Lit(xsd_integer(), LitValue::I(qv)),
                                    ),
                                    Option::None => Option::None,
                                }
                            },
                            LitValue::B(b) => Option::Some(
                                Term::Lit(xsd_integer(), LitValue::I(if *b {
                                    1i64
                                } else {
                                    0i64
                                })),
                            ),
                            LitValue::D(ms) => Option::Some(
                                Term::Lit(xsd_integer(), LitValue::I(*ms)),
                            ),
                            _ => Option::None,
                        }
                    } else if iri_is(&nn.iri, "http://www.w3.org/2001/XMLSchema#string") {
                        proof {
                            crate::terms::lemma_xsd_string_distinct();
                        }
                        match v {
                            LitValue::I(n) => Option::Some(
                                Term::Lit(xsd_string(), LitValue::S(i64_to_string(*n))),
                            ),
                            LitValue::B(b) => {
                                let s = if *b {
                                    String::from_str("true")
                                } else {
                                    String::from_str("false")
                                };
                                Option::Some(Term::Lit(xsd_string(), LitValue::S(s)))
                            },
                            LitValue::S(s) => Option::Some(
                                Term::Lit(xsd_string(), LitValue::S(s.clone())),
                            ),
                            _ => Option::None,
                        }
                    } else if iri_is(
                        &nn.iri,
                        "https://github.com/DataTreehouse/chrontext#DateTimeAsNanos",
                    ) {
                        match v {
                            LitValue::D(ms) => {
                                let n: i128 = (*ms as i128) * 1_000_000;
                                match fit_i64_exec(n) {
                                    Option::Some(nv) => Option::Some(
                                        Term::Lit(xsd_integer(), LitValue::I(nv)),
                                    ),
                                    Option::None => Option::None,
                                }
                            },
                            _ => Option::None,
                        }
                    } else if iri_is(
                        &nn.iri,
                        "https://github.com/DataTreehouse/chrontext#DateTimeAsSeconds",
                    ) {
                        match v {
                            LitValue::D(ms) => {
                                if *ms >= 0 {
                                    let q = crate::date::fdiv128(*ms as i128, 1_000);
                                    match fit_i64_exec(q) {
                                        Option::Some(qv) => Option::Some(
                                            Term::Lit(xsd_integer(), LitValue::I(qv)),
                                        ),
                                        Option::None => Option::None,
                                    }
                                } else {
                                    Option::None
                                }
                            },
                            _ => Option::None,
                        }
                    } else if iri_is(
                        &nn.iri,
                        "https://github.com/DataTreehouse/chrontext#NanosAsDateTime",
                    ) {
                        match v {
                            LitValue::I(n) => {
                                if *n >= 0 {
                                    let q = crate::date::fdiv128(*n as i128, 1_000_000);
                                    match fit_i64_exec(q) {
                                        Option::Some(qv) => Option::Some(
                                            Term::Lit(xsd_date_time(), LitValue::D(qv)),
                                        ),
                                        Option::None => Option::None,
                                    }
                                } else {
                                    Option::None
                                }
                            },
                            _ => Option::None,
                        }
                    } else if iri_is(
                        &nn.iri,
                        "https://github.com/DataTreehouse/chrontext#SecondsAsDateTime",
                    ) {
                        match v {
                            LitValue::I(sv) => {
                                let n: i128 = (*sv as i128) * 1_000;
                                match fit_i64_exec(n) {
                                    Option::Some(nv) => Option::Some(
                                        Term::Lit(xsd_date_time(), LitValue::D(nv)),
                                    ),
                                    Option::None => Option::None,
                                }
                            },
                            _ => Option::None,
                        }
                    } else {
                        Option::None
                    }
                },
                _ => Option::None,
            }
        },
    }
}

/// Evaluates a binary function on two cells.
fn eval_binary_func_cell(f: &Function, a: &Option<Term>, b: &Option<Term>) -> (r: Option<Term>)
    requires
        cell_term_wf(*a),
        cell_term_wf(*b),
        is_binary_func(*f),
    ensures
        cell_v(r) == eval_binary_func(*f, cell_v(*a), cell_v(*b)),
        match r {
            Option::Some(t) => term_wf(t) && (term_v(t) matches TermV::Lit(dd, _) && dd
                == binary_fixed_dt(*f)),
            Option::None => true,
        },
{
    let (ta, tb) = match (a, b) {
        (Option::Some(x), Option::Some(y)) => (x, y),
        _ => {
            return Option::None;
        },
    };
    match (ta, tb) {
        (Term::Lit(_, va), Term::Lit(_, vb)) => {
            match f {
                Function::Contains => {
                    match (va, vb) {
                        (LitValue::S(sa), LitValue::S(sb)) => Option::Some(
                            crate::eval::bool_term(str_contains(sa, sb)),
                        ),
                        _ => Option::None,
                    }
                },
                Function::StrStarts => {
                    match (va, vb) {
                        (LitValue::S(sa), LitValue::S(sb)) => Option::Some(
                            crate::eval::bool_term(str_starts_with(sa, sb)),
                        ),
                        _ => Option::None,
                    }
                },
                Function::StrEnds => {
                    match (va, vb) {
                        (LitValue::S(sa), LitValue::S(sb)) => Option::Some(
                            crate::eval::bool_term(str_ends_with(sa, sb)),
                        ),
                        _ => Option::None,
                    }
                },
                Function::Custom(nn) => {
                    if iri_is(&nn.iri, "https://github.com/DataTreehouse/chrontext#modulus") {
                        match (va, vb) {
                            (LitValue::I(x), LitValue::I(y)) => {
                                if *x >= 0 && *y > 0 {
                                    let m = crate::date::fmod128(*x as i128, *y as i128);
                                    match fit_i64_exec(m) {
                                        Option::Some(mv) => Option::Some(
                                            Term::Lit(xsd_integer(), LitValue::I(mv)),
                                        ),
                                        Option::None => Option::None,
                                    }
                                } else {
                                    Option::None
                                }
                            },
                            _ => Option::None,
                        }
                    } else if iri_is(
                        &nn.iri,
                        "https://github.com/DataTreehouse/chrontext#FloorDateTimeToSecondsInterval",
                    ) {
                        match (va, vb) {
                            (LitValue::D(ms), LitValue::I(iv)) => {
                                if *ms >= 0 && *iv > 0 {
                                    let s0 = crate::date::fdiv128(*ms as i128, 1_000);
                                    proof {
                                        assert(0 <= s0 as int <= ms as int) by (nonlinear_arith)
                                            requires
                                                ms as int >= 0,
                                                (s0 as int) * 1000 <= ms as int,
                                                (ms as int) - 1000 < (s0 as int) * 1000,
                                        ;
                                    }
                                    let rem = crate::date::fmod128(s0, *iv as i128);
                                    let bucket = s0 - rem;
                                    proof {
                                        let ivi = (*iv) as int;
                                        vstd::arithmetic::div_mod::lemma_fundamental_div_mod(
                                            s0 as int,
                                            ivi,
                                        );
                                        let qq = s0 as int / ivi;
                                        assert(0 <= (s0 as int - rem as int) <= s0 as int)
                                            by (nonlinear_arith)
                                            requires
                                                (s0 as int) == ivi * qq + (rem as int),
                                                0 <= (rem as int) < ivi,
                                                (s0 as int) >= 0,
                                        ;
                                        assert(bucket * 1_000 == (s0 as int - rem as int) * 1_000)
                                            by (nonlinear_arith)
                                            requires
                                                bucket == s0 - rem,
                                        ;
                                        assert(-0x4000_0000_0000_0000_0000_0000_0000_0000 <= bucket
                                            * 1_000
                                            < 0x4000_0000_0000_0000_0000_0000_0000_0000)
                                            by (nonlinear_arith)
                                            requires
                                                0 <= bucket <= 0x7fff_ffff_ffff_ffff,
                                        ;
                                    }
                                    let n = bucket * 1_000;
                                    match fit_i64_exec(n) {
                                        Option::Some(nv) => Option::Some(
                                            Term::Lit(xsd_date_time(), LitValue::D(nv)),
                                        ),
                                        Option::None => Option::None,
                                    }
                                } else {
                                    Option::None
                                }
                            },
                            _ => Option::None,
                        }
                    } else {
                        Option::None
                    }
                },
                _ => Option::None,
            }
        },
        _ => Option::None,
    }
}

/// The structural conditions under which a function call has a defined
/// translation: a supported function or custom IRI, with its fixed
/// argument count, one compiled context per argument column, and for
/// `REGEX` a string-literal pattern as the second argument.
pub open spec fn func_args_ok(f: Function, args: Seq<Expression>, acs: Seq<Context>) -> bool {
    if is_unary_func(f) {
        args.len() == 1 && acs.len() == 1
    } else if is_binary_func(f) {
        args.len() == 2 && acs.len() == 2
    } else if f is Concat {
        args.len() >= 2 && acs.len() == args.len()
    } else if f is Regex {
        args.len() == 2 && acs.len() == 1 && (args[1] matches Expression::Literal(l)
            && l.value matches LitValue::S(_))
    } else {
        false
    }
}

/// The `REGEX` pattern: the string value of the second argument literal.
pub open spec fn regex_pattern(args: Seq<Expression>) -> Seq<char> {
    match args[1] {
        Expression::Literal(l) => match l.value {
            LitValue::S(s) => s@,
            _ => Seq::empty(),
        },
        _ => Seq::empty(),
    }
}

/// No function is both unary and binary: the dispatch IRIs are pairwise
/// distinct.
pub proof fn lemma_unary_binary_disjoint(f: Function)
    ensures
        !(is_unary_func(f) && is_binary_func(f)),
{
    reveal_strlit("http://www.w3.org/2001/XMLSchema#integer");
    reveal_strlit("http://www.w3.org/2001/XMLSchema#string");
    reveal_strlit("https://github.com/DataTreehouse/chrontext#DateTimeAsNanos");
    reveal_strlit("https://github.com/DataTreehouse/chrontext#DateTimeAsSeconds");
    reveal_strlit("https://github.com/DataTreehouse/chrontext#NanosAsDateTime");
    reveal_strlit("https://github.com/DataTreehouse/chrontext#SecondsAsDateTime");
    reveal_strlit("https://github.com/DataTreehouse/chrontext#modulus");
    reveal_strlit("https://github.com/DataTreehouse/chrontext#FloorDateTimeToSecondsInterval");
    assert(xsd_integer_iri().len() == 40);
    assert(xsd_string_iri().len() == 39);
    assert(datetime_as_nanos_iri().len() == 58);
    assert(datetime_as_seconds_iri().len() == 60);
    assert(nanos_as_datetime_iri().len() == 58);
    assert(seconds_as_datetime_iri().len() == 60);
    assert(modulus_iri().len() == 50);
    assert(floor_datetime_to_seconds_interval_iri().len() == 73);
}

/// Classifies a function; mirrors the spec-side classification.
fn classify(f: &Function) -> (r: (bool, bool))
    ensures
        r.0 == is_unary_func(*f),
        r.1 == is_binary_func(*f),
{
    match f {
        Function::Year | Function::Month | Function::Day | Function::Hours | Function::Minutes
            | Function::Seconds | Function::Abs | Function::Ceil | Function::Floor
            | Function::Round => (true, false),
        Function::Contains | Function::StrStarts | Function::StrEnds => (false, true),
        Function::Custom(nn) => {
            let u = iri_is(&nn.iri, "http://www.w3.org/2001/XMLSchema#integer") || iri_is(
                &nn.iri,
                "http://www.w3.org/2001/XMLSchema#string",
            ) || iri_is(&nn.iri, "https://github.com/DataTreehouse/chrontext#DateTimeAsNanos")
                || iri_is(&nn.iri, "https://github.com/DataTreehouse/chrontext#DateTimeAsSeconds")
                || iri_is(&nn.iri, "https://github.com/DataTreehouse/chrontext#NanosAsDateTime")
                || iri_is(&nn.iri, "https://github.com/DataTreehouse/chrontext#SecondsAsDateTime");
            let b = iri_is(&nn.iri, "https://github.com/DataTreehouse/chrontext#modulus")
                || iri_is(
                &nn.iri,
                "https://github.com/DataTreehouse/chrontext#FloorDateTimeToSecondsInterval",
            );
            (u, b)
        },
        _ => (false, false),
    }
}

/// Compiles one built-in or custom function call: appends the result
/// column under the node's context, records the function's result type,
/// and drops the argument context columns.  A function kind or arity
/// without a defined translation fails with `UnsupportedFunction`; a
/// missing argument column fails with `InternalInvariantViolation`.
pub fn func_expression(
    sm: SolutionMappings,
    func: &Function,
    args: &Vec<Expression>,
    args_contexts: &Vec<Context>,
    context: &Context,
) -> (res: Result<SolutionMappings, QueryProcessingError>)
    requires
        sm.wf(),
        !sm.has_col(context@),
    ensures
        (res matches Result::Ok(_)) <==> (func_args_ok(*func, args@, args_contexts@) && (forall|
            k: int,
        | 0 <= k < args_contexts@.len() ==> sm.has_col(#[trigger] args_contexts@[k]@))),
        res matches Result::Err(e) ==> (e matches QueryProcessingError::UnsupportedFunction(_) || e
            matches QueryProcessingError::InternalInvariantViolation(_)),
        res matches Result::Ok(out) ==> {
            &&& compiles_to(sm, out, ctx_names(args_contexts@), context@)
            &&& (is_unary_func(*func) ==> {
                &&& (match unary_fixed_dt(*func) {
                    Option::Some(d) => out.type_at(context@) matches RDFNodeType::Literal(dd)
                        && dd@ == d,
                    Option::None => type_clone_ok(
                        out.type_at(context@),
                        sm.type_at(args_contexts@[0]@),
                    ),
                })
                &&& forall|i: int|
                    0 <= i < sm.height() ==> cell_v(#[trigger] out.cell_at(i, context@))
                        == eval_unary_func(*func, cell_v(sm.cell_at(i, args_contexts@[0]@)))
            })
            &&& (is_binary_func(*func) ==> {
                &&& (out.type_at(context@) matches RDFNodeType::Literal(dd) && dd@
                    == binary_fixed_dt(*func))
                &&& forall|i: int|
                    0 <= i < sm.height() ==> cell_v(#[trigger] out.cell_at(i, context@))
                        == eval_binary_func(
                        *func,
                        cell_v(sm.cell_at(i, args_contexts@[0]@)),
                        cell_v(sm.cell_at(i, args_contexts@[1]@)),
                    )
            })
            &&& (*func matches Function::Concat ==> {
                &&& (out.type_at(context@) matches RDFNodeType::Literal(dd) && dd@
                    == xsd_string_iri())
                &&& forall|i: int|
                    0 <= i < sm.height() ==> cell_v(#[trigger] out.cell_at(i, context@))
                        == eval_concat(
                        Seq::new(
                            args_contexts@.len(),
                            |k: int| cell_v(sm.cell_at(i, args_contexts@[k]@)),
                        ),
                    )
            })
            &&& (*func matches Function::Regex ==> {
                &&& (out.type_at(context@) matches RDFNodeType::Literal(dd) && dd@
                    == xsd_boolean_iri())
                &&& forall|i: int|
                    0 <= i < sm.height() ==> cell_v(#[trigger] out.cell_at(i, context@))
                        == eval_regex(
                        cell_v(sm.cell_at(i, args_contexts@[0]@)),
                        regex_pattern(args@),
                    )
            })
        },
{
    let (is_unary, is_binary) = classify(func);
    proof {
        lemma_unary_binary_disjoint(*func);
    }
    let is_concat = matches!(func, Function::Concat);
    let is_regex = matches!(func, Function::Regex);
    // arity checks
    if is_unary {
        if !(args.len() == 1 && args_contexts.len() == 1) {
            return Result::Err(
                QueryProcessingError::UnsupportedFunction(
                    String::from_str("wrong number of arguments"),
                ),
            );
        }
    } else if is_binary {
        if !(args.len() == 2 && args_contexts.len() == 2) {
            return Result::Err(
                QueryProcessingError::UnsupportedFunction(
                    String::from_str("wrong number of arguments"),
                ),
            );
        }
    } else if is_concat {
        if !(args.len() >= 2 && args_contexts.len() == args.len()) {
            return Result::Err(
                QueryProcessingError::UnsupportedFunction(
                    String::from_str("wrong number of arguments"),
                ),
            );
        }
    } else if is_regex {
        let shape_ok: bool = if args.len() == 2 && args_contexts.len() == 1 {
            match &args[1] {
                Expression::Literal(l) => matches!(&l.value, LitValue::S(_)),
                _ => false,
            }
        } else {
            false
        };
        if !shape_ok {
            return Result::Err(
                QueryProcessingError::UnsupportedFunction(
                    String::from_str("the pattern must be a string literal"),
                ),
            );
        }
    } else {
        return Result::Err(
            QueryProcessingError::UnsupportedFunction(
                String::from_str("no defined translation for this function"),
            ),
        );
    }
    // locate the argument columns
    let mut idxs: Vec<usize> = Vec::new();
    let mut k: usize = 0;
    while k < args_contexts.len()
        invariant
            0 <= k <= args_contexts@.len(),
            idxs@.len() == k,
            forall|w: int|
                0 <= w < k ==> 0 <= #[trigger] idxs@[w] < sm.width() && sm.name(idxs@[w] as int)
                    == args_contexts@[w]@,
        decreases args_contexts@.len() - k,
    {
        match find_col(&sm, &args_contexts[k].name) {
            Option::Some(j) => {
                idxs.push(j);
            },
            Option::None => {
                proof {
                    assert(!sm.has_col(args_contexts@[k as int]@));
                }
                return Result::Err(
                    QueryProcessingError::InternalInvariantViolation(
                        String::from_str("missing argument column"),
                    ),
                );
            },
        }
        k = k + 1;
    }
    proof {
        assert forall|w: int| 0 <= w < args_contexts@.len() implies sm.has_col(
            #[trigger] args_contexts@[w]@,
        ) by {
            assert(sm.name(idxs@[w] as int) == args_contexts@[w]@);
        }
        assert forall|w: int| 0 <= w < args_contexts@.len() implies sm.col_index(
            #[trigger] args_contexts@[w]@,
        ) == idxs@[w] as int by {
            sm.lemma_col_index(args_contexts@[w]@);
        }
    }
    // result type
    let typ: RDFNodeType;
    if is_unary {
        match unary_fixed_dt_exec(func) {
            Option::Some(d) => {
                typ = RDFNodeType::Literal(d);
            },
            Option::None => {
                typ = sm.types[idxs[0]].clone();
                proof {
                    crate::terms::lemma_type_clone_wf(sm.types@[idxs@[0] as int], typ);
                }
            },
        }
    } else if is_binary {
        typ = RDFNodeType::Literal(binary_fixed_dt_exec(func));
    } else if is_concat {
        typ = RDFNodeType::Literal(xsd_string());
    } else {
        typ = RDFNodeType::Literal(xsd_boolean());
    }
    let ghost typ_spec = typ;
    // the regex pattern, when applicable
    let pattern: Option<String> = if is_regex {
        match &args[1] {
            Expression::Literal(l) => match &l.value {
                LitValue::S(p) => Option::Some(p.clone()),
                _ => Option::None,
            },
            _ => Option::None,
        }
    } else {
        Option::None
    };
    // compute the result column
    let mut cells: Vec<Option<Term>> = Vec::new();
    let mut i: usize = 0;
    while i < sm.rows.len()
        invariant
            0 <= i <= sm.height(),
            sm.wf(),
            is_unary == is_unary_func(*func),
            is_binary == is_binary_func(*func),
            is_concat == (*func matches Function::Concat),
            is_regex == (*func matches Function::Regex),
            is_unary || is_binary || is_concat || is_regex,
            idxs@.len() == args_contexts@.len(),
            is_unary ==> idxs@.len() == 1,
            is_binary ==> idxs@.len() == 2,
            is_regex ==> idxs@.len() == 1 && (pattern matches Option::Some(p) && p@
                == regex_pattern(args@)),
            forall|w: int|
                0 <= w < idxs@.len() ==> 0 <= #[trigger] idxs@[w] < sm.width(),
            typ == typ_spec,
            type_wf(typ_spec),
            is_unary ==> (match unary_fixed_dt(*func) {
                Option::Some(d) => typ_spec matches RDFNodeType::Literal(dd) && dd@ == d,
                Option::None => type_clone_ok(typ_spec, sm.types@[idxs@[0] as int]),
            }),
            is_binary ==> (typ_spec matches RDFNodeType::Literal(dd) && dd@ == binary_fixed_dt(
                *func,
            )),
            is_concat ==> (typ_spec matches RDFNodeType::Literal(dd) && dd@ == xsd_string_iri()),
            is_regex ==> (typ_spec matches RDFNodeType::Literal(dd) && dd@ == xsd_boolean_iri()),
            cells@.len() == i,
            forall|k2: int|
                0 <= k2 < i ==> cell_fits(#[trigger] cells@[k2], typ_spec),
            is_unary ==> forall|k2: int|
                0 <= k2 < i ==> cell_v(#[trigger] cells@[k2]) == eval_unary_func(
                    *func,
                    cell_v(sm.cell(k2, idxs@[0] as int)),
                ),
            is_binary ==> forall|k2: int|
                0 <= k2 < i ==> cell_v(#[trigger] cells@[k2]) == eval_binary_func(
                    *func,
                    cell_v(sm.cell(k2, idxs@[0] as int)),
                    cell_v(sm.cell(k2, idxs@[1] as int)),
                ),
            is_concat ==> forall|k2: int|
                0 <= k2 < i ==> cell_v(#[trigger] cells@[k2]) == eval_concat(
                    Seq::new(idxs@.len() as nat, |w: int| cell_v(sm.cell(k2, idxs@[w] as int))),
                ),
            is_regex ==> forall|k2: int|
                0 <= k2 < i ==> cell_v(#[trigger] cells@[k2]) == eval_regex(
                    cell_v(sm.cell(k2, idxs@[0] as int)),
                    regex_pattern(args@),
                ),
        decreases sm.height() - i,
    {
        let c: Option<Term>;
        if is_unary {
            proof {
                assert(cell_term_wf(sm.rows@[i as int]@[idxs@[0] as int]));
            }
            c = eval_unary_cell(func, &sm.rows[i][idxs[0]]);
            proof {
                match &c {
                    Option::Some(t) => {
                        match unary_fixed_dt(*func) {
                            Option::Some(_) => {},
                            Option::None => {
                                assert(cell_fits(
                                    sm.rows@[i as int]@[idxs@[0] as int],
                                    sm.types@[idxs@[0] as int],
                                ));
                                crate::terms::lemma_type_clone_fits(
                                    c,
                                    sm.types@[idxs@[0] as int],
                                    typ_spec,
                                );
                            },
                        }
                    },
                    Option::None => {},
                }
            }
        } else if is_binary {
            proof {
                assert(cell_term_wf(sm.rows@[i as int]@[idxs@[0] as int]));
                assert(cell_term_wf(sm.rows@[i as int]@[idxs@[1] as int]));
            }
            c = eval_binary_func_cell(func, &sm.rows[i][idxs[0]], &sm.rows[i][idxs[1]]);
        } else if is_concat {
            c = concat_row(&sm, i, &idxs);
        } else {
            let p = match &pattern {
                Option::Some(p) => p,
                Option::None => {
                    proof {
                        assert(false);
                    }
                    return Result::Err(
                        QueryProcessingError::UnsupportedFunction(String::from_str("unreachable")),
                    );
                },
            };
            c = eval_regex_cell(&sm.rows[i][idxs[0]], p);
        }
        proof {
            match &c {
                Option::Some(t) => {
                    assert(cell_fits(c, typ_spec));
                },
                Option::None => {},
            }
        }
        cells.push(c);
        i = i + 1;
    }
    let name_s = String::from_str(context.as_str());
    let mid = push_column(sm, name_s, typ, cells);
    let mut dropped: Vec<Context> = Vec::new();
    let mut k3: usize = 0;
    while k3 < args_contexts.len()
        invariant
            0 <= k3 <= args_contexts@.len(),
            dropped@.len() == k3,
            forall|w: int| 0 <= w < k3 ==> #[trigger] dropped@[w]@ == args_contexts@[w]@,
        decreases args_contexts@.len() - k3,
    {
        dropped.push(args_contexts[k3].clone());
        k3 = k3 + 1;
    }
    let out = drop_inner_contexts(mid, &dropped);
    proof {
        let ds = ctx_names(args_contexts@);
        assert(ctx_names(dropped@) =~= ds);
        assert(!ds.contains(context@)) by {
            if ds.contains(context@) {
                let w = choose|w: int| 0 <= w < ds.len() && ds[w] == context@;
                assert(sm.has_col(args_contexts@[w]@));
            }
        }
        assert(compiles_to(sm, out, ds, context@));
        assert(out.has_col(context@));
        assert(out.type_at(context@) == mid.type_at(name_s@));
        assert(mid.type_at(name_s@) == typ_spec);
        assert forall|i2: int| 0 <= i2 < sm.height() implies #[trigger] out.cell_at(i2, context@)
            == cells@[i2] by {
            assert(mid.cell_at(i2, name_s@) == cells@[i2]);
            assert(out.cell_at(i2, context@) == mid.cell_at(i2, context@));
        }
        assert forall|w: int, i2: int|
            0 <= w < args_contexts@.len() && 0 <= i2 < sm.height() implies #[trigger] sm.cell_at(
            i2,
            args_contexts@[w]@,
        ) == sm.cell(i2, idxs@[w] as int) by {}
        if is_concat {
            assert forall|i2: int| 0 <= i2 < sm.height() implies cell_v(
                #[trigger] out.cell_at(i2, context@),
            ) == eval_concat(
                Seq::new(
                    args_contexts@.len(),
                    |k2: int| cell_v(sm.cell_at(i2, args_contexts@[k2]@)),
                ),
            ) by {
                assert(out.cell_at(i2, context@) == cells@[i2]);
                assert(Seq::new(
                    idxs@.len() as nat,
                    |w: int| cell_v(sm.cell(i2, idxs@[w] as int)),
                ) =~= Seq::new(
                    args_contexts@.len(),
                    |k2: int| cell_v(sm.cell_at(i2, args_contexts@[k2]@)),
                ));
            }
        }
    }
    Result::Ok(out)
}

/// The fixed result datatype of a unary function, as a string.
fn unary_fixed_dt_exec(f: &Function) -> (r: Option<String>)
    requires
        is_unary_func(*f),
    ensures
        match r {
            Option::Some(d) => unary_fixed_dt(*f) == Option::Some(d@),
            Option::None => unary_fixed_dt(*f) matches Option::None,
        },
{
    match f {
        Function::Year | Function::Month | Function::Day | Function::Hours | Function::Minutes
            | Function::Seconds => Option::Some(xsd_unsigned_int()),
        Function::Ceil | Function::Floor => Option::Some(xsd_integer()),
        Function::Abs | Function::Round => Option::None,
        Function::Custom(nn) => {
            if iri_is(&nn.iri, "http://www.w3.org/2001/XMLSchema#integer") {
                Option::Some(xsd_integer())
            } else if iri_is(&nn.iri, "http://www.w3.org/2001/XMLSchema#string") {
                Option::Some(xsd_string())
            } else if iri_is(
                &nn.iri,
                "https://github.com/DataTreehouse/chrontext#DateTimeAsNanos",
            ) {
                Option::Some(xsd_integer())
            } else if iri_is(
                &nn.iri,
                "https://github.com/DataTreehouse/chrontext#DateTimeAsSeconds",
            ) {
                Option::Some(xsd_integer())
            } else if iri_is(
                &nn.iri,
                "https://github.com/DataTreehouse/chrontext#NanosAsDateTime",
            ) {
                Option::Some(xsd_date_time())
            } else {
                Option::Some(xsd_date_time())
            }
        },
        _ => Option::None,
    }
}

/// The fixed result datatype of a binary function, as a string.
fn binary_fixed_dt_exec(f: &Function) -> (r: String)
    requires
        is_binary_func(*f),
    ensures
        r@ == binary_fixed_dt(*f),
{
    match f {
        Function::Contains | Function::StrStarts | Function::StrEnds => xsd_boolean(),
        Function::Custom(nn) => {
            if iri_is(&nn.iri, "https://github.com/DataTreehouse/chrontext#modulus") {
                xsd_integer()
            } else {
                xsd_date_time()
            }
        },
        _ => xsd_boolean(),
    }
}

/// Evaluates `REGEX` on one cell.
fn eval_regex_cell(a: &Option<Term>, pattern: &String) -> (r: Option<Term>)
    ensures
        cell_v(r) == eval_regex(cell_v(*a), pattern@),
        match r {
            Option::Some(t) => term_wf(t) && (term_v(t) matches TermV::Lit(dd, _) && dd
                == xsd_boolean_iri()),
            Option::None => true,
        },
{
    match a {
        Option::Some(Term::Lit(_, LitValue::S(s))) => Option::Some(
            crate::eval::bool_term(str_contains(s, pattern)),
        ),
        _ => Option::None,
    }
}

/// Evaluates `CONCAT` over one row's argument columns.
fn concat_row(sm: &SolutionMappings, i: usize, idxs: &Vec<usize>) -> (r: Option<Term>)
    requires
        sm.wf(),
        0 <= i < sm.height(),
        forall|w: int| 0 <= w < idxs@.len() ==> 0 <= #[trigger] idxs@[w] < sm.width(),
    ensures
        cell_v(r) == eval_concat(
            Seq::new(idxs@.len() as nat, |w: int| cell_v(sm.cell(i as int, idxs@[w] as int))),
        ),
        match r {
            Option::Some(t) => term_wf(t) && (term_v(t) matches TermV::Lit(dd, _) && dd
                == xsd_string_iri()),
            Option::None => true,
        },
{
    let ghost cs = Seq::new(idxs@.len() as nat, |w: int| cell_v(sm.cell(i as int, idxs@[w] as int)));
    let mut acc: String = String::new();
    let mut failed: bool = false;
    let mut w: usize = 0;
    while w < idxs.len()
        invariant
            0 <= w <= idxs@.len(),
            sm.wf(),
            0 <= i < sm.height(),
            forall|w2: int| 0 <= w2 < idxs@.len() ==> 0 <= #[trigger] idxs@[w2] < sm.width(),
            cs == Seq::new(
                idxs@.len() as nat,
                |w2: int| cell_v(sm.cell(i as int, idxs@[w2] as int)),
            ),
            !failed ==> concat_strs(cs.take(w as int)) == Option::Some(acc@),
            failed ==> concat_strs(cs.take(w as int)) matches Option::None,
        decreases idxs@.len() - w,
    {
        proof {
            assert(cs.take(w as int + 1).drop_last() =~= cs.take(w as int));
            assert(cs.take(w as int + 1).last() == cs[w as int]);
        }
        if !failed {
            match &sm.rows[i][idxs[w]] {
                Option::None => {},
                Option::Some(Term::Lit(_, LitValue::S(s))) => {
                    acc.append(s.as_str());
                },
                Option::Some(_) => {
                    failed = true;
                },
            }
        }
        w = w + 1;
    }
    proof {
        assert(cs.take(idxs@.len() as int) =~= cs);
    }
    if failed {
        Option::None
    } else {
        proof {
            crate::terms::lemma_xsd_string_distinct();
        }
        Option::Some(Term::Lit(xsd_string(), LitValue::S(acc)))
    }
}

} // verus!
