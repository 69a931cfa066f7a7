use vstd::prelude::*;
use crate::terms::{RDFNodeType, BaseRDFNodeType, Term, base_same, base_lt, base_less, base_eq,
    base_seq_sorted, base_in_seq, base_in_type, base_of, base_of_type, type_wf, term_same,
    lemma_base_lt_trichotomy, lemma_base_lt_transitive};

verus! {

/// The set of concrete types behind a recorded type, as a sorted
/// sequence: the type itself for a single type, the member list for a
/// `MultiType`.
pub open spec fn bases_of(t: RDFNodeType) -> Seq<BaseRDFNodeType> {
    match t {
        RDFNodeType::MultiType(v) => v@,
        _ => seq![base_of_type(t)],
    }
}

/// Extracts the sorted list of concrete types of a recorded type.
fn bases_vec(t: &RDFNodeType) -> (v: Vec<BaseRDFNodeType>)
    requires
        type_wf(*t),
    ensures
        v@.len() >= 1,
        base_seq_sorted(v@),
        forall|k: int| 0 <= k < v@.len() ==> #[trigger] v@[k] == bases_of(*t)[k],
        v@.len() == bases_of(*t).len(),
{
    match t {
        RDFNodeType::MultiType(mv) => {
            let mut out: Vec<BaseRDFNodeType> = Vec::new();
            let mut i: usize = 0;
            while i < mv.len()
                invariant
                    0 <= i <= mv@.len(),
                    out@.len() == i,
                    forall|k: int| 0 <= k < i ==> #[trigger] out@[k] == mv@[k],
                decreases mv@.len() - i,
            {
                out.push(mv[i].clone());
                i = i + 1;
            }
            proof {
                assert(*t matches RDFNodeType::MultiType(w) && w@ == mv@);
            }
            out
        },
        _ => {
            let mut out: Vec<BaseRDFNodeType> = Vec::new();
            out.push(crate::terms::from_rdf_node_type(t));
            out
        },
    }
}

/// The single recorded type of one concrete type.
pub fn base_to_type(b: BaseRDFNodeType) -> (t: RDFNodeType)
    ensures
        !(t matches RDFNodeType::MultiType(_)),
        base_of_type(t) == b,
        type_wf(t),
{
    match b {
        BaseRDFNodeType::IRI => RDFNodeType::IRI,
        BaseRDFNodeType::BlankNode => RDFNodeType::BlankNode,
        BaseRDFNodeType::Literal(dt) => RDFNodeType::Literal(dt),
    }
}

/// Merges two strictly sorted type lists into one strictly sorted list
/// whose members are exactly the members of either input.
fn merge_sorted_bases(x: &Vec<BaseRDFNodeType>, y: &Vec<BaseRDFNodeType>) -> (out: Vec<
    BaseRDFNodeType,
>)
    requires
        base_seq_sorted(x@),
        base_seq_sorted(y@),
    ensures
        base_seq_sorted(out@),
        forall|b: BaseRDFNodeType| #[trigger]
            base_in_seq(b, out@) <==> (base_in_seq(b, x@) || base_in_seq(b, y@)),
        out@.len() >= x@.len(),
        out@.len() >= y@.len(),
{
    let mut out: Vec<BaseRDFNodeType> = Vec::new();
    let mut i: usize = 0;
    let mut j: usize = 0;
    while i < x.len() || j < y.len()
        invariant
            0 <= i <= x@.len(),
            0 <= j <= y@.len(),
            base_seq_sorted(x@),
            base_seq_sorted(y@),
            base_seq_sorted(out@),
            out@.len() >= i,
            out@.len() >= j,
            // every emitted element is strictly below every pending element
            forall|k: int, w: int|
                0 <= k < out@.len() && i <= w < x@.len() ==> base_lt(#[trigger] out@[k], #[trigger] x@[w]),
            forall|k: int, w: int|
                0 <= k < out@.len() && j <= w < y@.len() ==> base_lt(#[trigger] out@[k], #[trigger] y@[w]),
            // membership over the consumed prefixes
            forall|b: BaseRDFNodeType| #[trigger]
                base_in_seq(b, out@) <==> (base_in_seq(b, x@.take(i as int)) || base_in_seq(
                    b,
                    y@.take(j as int),
                )),
        decreases x@.len() + y@.len() - i - j,
    {
        let ghost out_old = out@;
        let ghost xi = x@.take(i as int);
        let ghost yj = y@.take(j as int);
        let take_x: bool = if i < x.len() && j < y.len() {
            !base_less(&y[j], &x[i])
        } else {
            i < x.len()
        };
        let both_equal: bool = i < x.len() && j < y.len() && base_eq(&x[i], &y[j]);
        proof {
            if i < x@.len() && j < y@.len() {
                lemma_base_lt_trichotomy(x@[i as int], y@[j as int]);
            }
        }
        if take_x {
            let e = x[i].clone();
            proof {
                assert forall|k: int| 0 <= k < out@.len() implies base_lt(
                    #[trigger] out@[k],
                    x@[i as int],
                ) by {}
            }
            out.push(e);
            i = i + 1;
            if both_equal {
                j = j + 1;
            }
            proof {
                let e_s = x@[i as int - 1];
                assert(out@ == out_old.push(e_s));
                // sortedness
                assert forall|a: int, b2: int| 0 <= a < b2 < out@.len() implies base_lt(
                    out@[a],
                    out@[b2],
                ) by {
                    if b2 < out@.len() - 1 {
                        assert(out@[a] == out_old[a]);
                        assert(out@[b2] == out_old[b2]);
                    } else {
                        assert(out@[b2] == e_s);
                        assert(out@[a] == out_old[a]);
                    }
                }
                // pending bounds
                assert forall|k: int, w: int|
                    0 <= k < out@.len() && i as int <= w < x@.len() implies base_lt(
                    #[trigger] out@[k],
                    #[trigger] x@[w],
                ) by {
                    if k < out@.len() - 1 {
                        assert(out@[k] == out_old[k]);
                    } else {
                        assert(out@[k] == e_s);
                        assert(base_lt(x@[i as int - 1], x@[w]));
                    }
                }
                assert forall|k: int, w: int|
                    0 <= k < out@.len() && j as int <= w < y@.len() implies base_lt(
                    #[trigger] out@[k],
                    #[trigger] y@[w],
                ) by {
                    if k < out@.len() - 1 {
                        assert(out@[k] == out_old[k]);
                    } else {
                        assert(out@[k] == e_s);
                        if both_equal {
                            // e_s equals the consumed y head, which is below y[w]
                            assert(base_same(e_s, y@[j as int - 1]));
                            assert(base_lt(y@[j as int - 1], y@[w]));
                            lemma_base_lt_same(e_s, y@[j as int - 1], y@[w]);
                        } else {
                            // not less and not equal: e_s is strictly below y[j]
                            lemma_base_lt_trichotomy(e_s, y@[j as int]);
                            assert(base_lt(e_s, y@[j as int]));
                            if w > j as int {
                                assert(base_lt(y@[j as int], y@[w]));
                                lemma_base_lt_transitive(e_s, y@[j as int], y@[w]);
                            }
                        }
                    }
                }
                // membership
                assert forall|b: BaseRDFNodeType| #[trigger] base_in_seq(b, out@) <==> (
                base_in_seq(b, x@.take(i as int)) || base_in_seq(b, y@.take(j as int))) by {
                    let xi2 = x@.take(i as int);
                    let yj2 = y@.take(j as int);
                    if base_in_seq(b, out@) {
                        let k = choose|k: int| 0 <= k < out@.len() && base_same(out@[k], b);
                        if k < out@.len() - 1 {
                            assert(base_in_seq(b, out_old));
                            if base_in_seq(b, xi) {
                                lemma_in_seq_take_mono(b, x@, i as int - 1, i as int);
                            }
                            if base_in_seq(b, yj) {
                                lemma_in_seq_take_mono(
                                    b,
                                    y@,
                                    if both_equal { j as int - 1 } else { j as int },
                                    j as int,
                                );
                            }
                        } else {
                            assert(base_same(e_s, b));
                            assert(xi2[i as int - 1] == e_s);
                            assert(base_in_seq(b, xi2));
                        }
                    }
                    if base_in_seq(b, xi2) {
                        let k = choose|k: int| 0 <= k < xi2.len() && base_same(xi2[k], b);
                        if k < i as int - 1 {
                            assert(base_in_seq(b, xi)) by {
                                assert(xi[k] == xi2[k]);
                            }
                            assert(base_in_seq(b, out_old));
                            lemma_in_seq_push(b, out_old, e_s);
                        } else {
                            assert(base_same(e_s, b));
                            assert(out@.last() == e_s);
                            assert(base_in_seq(b, out@));
                        }
                    }
                    if base_in_seq(b, yj2) {
                        let k = choose|k: int| 0 <= k < yj2.len() && base_same(yj2[k], b);
                        if k < yj.len() {
                            assert(base_in_seq(b, yj)) by {
                                assert(yj[k] == yj2[k]);
                            }
                            assert(base_in_seq(b, out_old));
                            lemma_in_seq_push(b, out_old, e_s);
                        } else {
                            // only possible when both heads were equal
                            assert(both_equal);
                            assert(base_same(y@[j as int - 1], b));
                            assert(base_same(e_s, y@[j as int - 1]));
                            lemma_base_same_trans(e_s, y@[j as int - 1], b);
                            assert(out@.last() == e_s);
                            assert(base_in_seq(b, out@));
                        }
                    }
                }
            }
        } else {
            let e = y[j].clone();
            proof {
                assert(base_lt(y@[j as int], x@[i as int]) || i as int >= x@.len());
            }
            out.push(e);
            j = j + 1;
            proof {
                let e_s = y@[j as int - 1];
                assert(out@ == out_old.push(e_s));
                assert forall|a: int, b2: int| 0 <= a < b2 < out@.len() implies base_lt(
                    out@[a],
                    out@[b2],
                ) by {
                    if b2 < out@.len() - 1 {
                        assert(out@[a] == out_old[a]);
                        assert(out@[b2] == out_old[b2]);
                    } else {
                        assert(out@[b2] == e_s);
                        assert(out@[a] == out_old[a]);
                    }
                }
                assert forall|k: int, w: int|
                    0 <= k < out@.len() && i as int <= w < x@.len() implies base_lt(
                    #[trigger] out@[k],
                    #[trigger] x@[w],
                ) by {
                    if k < out@.len() - 1 {
                        assert(out@[k] == out_old[k]);
                    } else {
                        assert(out@[k] == e_s);
                        assert(base_lt(e_s, x@[i as int]));
                        if w > i as int {
                            lemma_base_lt_transitive(e_s, x@[i as int], x@[w]);
                        }
                    }
                }
                assert forall|k: int, w: int|
                    0 <= k < out@.len() && j as int <= w < y@.len() implies base_lt(
                    #[trigger] out@[k],
                    #[trigger] y@[w],
                ) by {
                    if k < out@.len() - 1 {
                        assert(out@[k] == out_old[k]);
                    } else {
                        assert(out@[k] == e_s);
                        assert(base_lt(y@[j as int - 1], y@[w]));
                    }
                }
                assert forall|b: BaseRDFNodeType| #[trigger] base_in_seq(b, out@) <==> (
                base_in_seq(b, x@.take(i as int)) || base_in_seq(b, y@.take(j as int))) by {
                    let xi2 = x@.take(i as int);
                    let yj2 = y@.take(j as int);
                    if base_in_seq(b, out@) {
                        let k = choose|k: int| 0 <= k < out@.len() && base_same(out@[k], b);
                        if k < out@.len() - 1 {
                            assert(base_in_seq(b, out_old));
                        } else {
                            assert(base_same(e_s, b));
                            assert(yj2[j as int - 1] == e_s);
                            assert(base_in_seq(b, yj2));
                        }
                    }
                    if base_in_seq(b, xi2) {
                        assert(xi2 == xi);
                        assert(base_in_seq(b, out_old));
                        lemma_in_seq_push(b, out_old, e_s);
                    }
                    if base_in_seq(b, yj2) {
                        let k = choose|k: int| 0 <= k < yj2.len() && base_same(yj2[k], b);
                        if k < j as int - 1 {
                            assert(base_in_seq(b, yj)) by {
                                assert(yj[k] == yj2[k]);
                            }
                            assert(base_in_seq(b, out_old));
                            lemma_in_seq_push(b, out_old, e_s);
                        } else {
                            assert(base_same(e_s, b));
                            assert(out@.last() == e_s);
                            assert(base_in_seq(b, out@));
                        }
                    }
                }
            }
        }
    }
    proof {
        assert(x@.take(i as int) =~= x@);
        assert(y@.take(j as int) =~= y@);
        assert(out@.len() >= x@.len());
        assert(out@.len() >= y@.len());
    }
    out
}

proof fn lemma_base_same_trans(a: BaseRDFNodeType, b: BaseRDFNodeType, c: BaseRDFNodeType)
    requires
        base_same(a, b),
        base_same(b, c),
    ensures
        base_same(a, c),
{
}

proof fn lemma_base_same_lt(a: BaseRDFNodeType, b: BaseRDFNodeType, c: BaseRDFNodeType)
    requires
        base_lt(a, b),
        base_same(b, c),
    ensures
        base_lt(a, c),
{
}

proof fn lemma_base_lt_same(a: BaseRDFNodeType, b: BaseRDFNodeType, c: BaseRDFNodeType)
    requires
        base_same(a, b),
        base_lt(b, c),
    ensures
        base_lt(a, c),
{
}

proof fn lemma_in_seq_take_mono(b: BaseRDFNodeType, s: Seq<BaseRDFNodeType>, i1: int, i2: int)
    requires
        0 <= i1 <= i2 <= s.len(),
        base_in_seq(b, s.take(i1)),
    ensures
        base_in_seq(b, s.take(i2)),
{
    let k = choose|k: int| 0 <= k < s.take(i1).len() && base_same(s.take(i1)[k], b);
    assert(s.take(i2)[k] == s.take(i1)[k]);
}

proof fn lemma_take_in_seq(b: BaseRDFNodeType, s: Seq<BaseRDFNodeType>, t: Seq<BaseRDFNodeType>)
    requires
        s =~= t || s == t,
    ensures
        base_in_seq(b, s) == base_in_seq(b, t),
{
}

proof fn lemma_in_seq_push(b: BaseRDFNodeType, s: Seq<BaseRDFNodeType>, e: BaseRDFNodeType)
    requires
        base_in_seq(b, s),
    ensures
        base_in_seq(b, s.push(e)),
{
    let k = choose|k: int| 0 <= k < s.len() && base_same(s[k], b);
    assert(s.push(e)[k] == s[k]);
}

/// The reconciled type admits exactly the concrete types that either
/// side admits, and is well formed.
pub open spec fn merged_type_ok(ot: RDFNodeType, a: RDFNodeType, b: RDFNodeType) -> bool {
    &&& type_wf(ot)
    &&& forall|bb: BaseRDFNodeType| #[trigger]
        base_in_type(bb, ot) <==> (base_in_type(bb, a) || base_in_type(bb, b))
}

/// Reconciles the types of a column present on both sides of a union:
/// the sorted union of both sides' concrete types, collapsed to a single
/// type when only one remains.
pub fn merge_types(a: &RDFNodeType, b: &RDFNodeType) -> (t: RDFNodeType)
    requires
        type_wf(*a),
        type_wf(*b),
    ensures
        merged_type_ok(t, *a, *b),
{
    let xs = bases_vec(a);
    let ys = bases_vec(b);
    proof {
        assert(base_seq_sorted(xs@)) by {
            match a {
                RDFNodeType::MultiType(_) => {},
                _ => {
                    assert(xs@.len() == 1);
                },
            }
        }
        assert(base_seq_sorted(ys@)) by {
            match b {
                RDFNodeType::MultiType(_) => {},
                _ => {
                    assert(ys@.len() == 1);
                },
            }
        }
        assert(xs@ =~= bases_of(*a));
        assert(ys@ =~= bases_of(*b));
        lemma_bases_membership(*a);
        lemma_bases_membership(*b);
    }
    let mut merged = merge_sorted_bases(&xs, &ys);
    if merged.len() == 1 {
        let ghost full = merged@;
        let single = match merged.pop() {
            Option::Some(s) => s,
            Option::None => BaseRDFNodeType::IRI,
        };
        proof {
            assert(full.len() == 1);
            assert(single == full[0]);
        }
        let t = base_to_type(single);
        proof {
            assert forall|bb: BaseRDFNodeType| #[trigger] base_in_type(bb, t) <==> (base_in_type(
                bb,
                *a,
            ) || base_in_type(bb, *b)) by {
                if base_in_type(bb, t) {
                    assert(base_same(base_of_type(t), bb));
                    assert(base_same(full[0], bb));
                    assert(base_in_seq(bb, full));
                }
                if base_in_type(bb, *a) || base_in_type(bb, *b) {
                    assert(base_in_seq(bb, full));
                    let k = choose|k: int| 0 <= k < full.len() && base_same(full[k], bb);
                    assert(full[k] == single);
                    assert(base_same(single, bb));
                    assert(base_same(base_of_type(t), single));
                    lemma_base_same_trans(base_of_type(t), single, bb);
                }
            }
        }
        t
    } else {
        let t = RDFNodeType::MultiType(merged);
        proof {
            assert(t matches RDFNodeType::MultiType(v) && v@ == merged@);
            assert(type_wf(t));
        }
        t
    }
}

/// A recorded type admits a concrete type exactly when its base list
/// holds it.
proof fn lemma_bases_membership(t: RDFNodeType)
    ensures
        forall|b: BaseRDFNodeType| #[trigger]
            base_in_type(b, t) <==> base_in_seq(b, bases_of(t)),
{
    assert forall|b: BaseRDFNodeType| #[trigger] base_in_type(b, t) <==> base_in_seq(
        b,
        bases_of(t),
    ) by {
        match t {
            RDFNodeType::MultiType(_) => {},
            _ => {
                if base_in_type(b, t) {
                    assert(base_same(base_of_type(t), b)) by {
                        match t {
                            RDFNodeType::Literal(dt) => {
                                assert(base_same(b, BaseRDFNodeType::Literal(dt)));
                            },
                            _ => {},
                        }
                    }
                    assert(bases_of(t)[0] == base_of_type(t));
                    assert(base_in_seq(b, bases_of(t)));
                }
                if base_in_seq(b, bases_of(t)) {
                    let k = choose|k: int|
                        0 <= k < bases_of(t).len() && base_same(bases_of(t)[k], b);
                    assert(bases_of(t)[k] == base_of_type(t));
                    match t {
                        RDFNodeType::Literal(dt) => {
                            assert(base_same(b, BaseRDFNodeType::Literal(dt)));
                        },
                        _ => {},
                    }
                }
            },
        }
    }
}

/// The per-type view of one cell: the cell itself when its concrete type
/// is the sub-column's type, unbound otherwise.  This is the
/// decomposition that splitting a multi-type column into per-type
/// sub-columns performs, and its inverse is unambiguous because at most
/// one sub-column is bound per row.
pub open spec fn explode_cell(c: Option<Term>, b: BaseRDFNodeType) -> Option<Term> {
    match c {
        Option::Some(t) => {
            if base_same(base_of(t), b) {
                Option::Some(t)
            } else {
                Option::None
            }
        },
        Option::None => Option::None,
    }
}

/// Computes the per-type view of one cell.
pub fn explode_cell_exec(c: &Option<Term>, b: &BaseRDFNodeType) -> (r: Option<Term>)
    ensures
        r == explode_cell(*c, *b),
{
    match c {
        Option::Some(t) => {
            let tb = crate::solution_mapping::term_base(t);
            if base_eq(&tb, b) {
                Option::Some(t.clone())
            } else {
                Option::None
            }
        },
        Option::None => Option::None,
    }
}

/// Union type reconciliation round trip.  For a column carried with one
/// concrete type on each side of a union (the types differing), every
/// output row from the left side exposes exactly the left side's value
/// under the left type's per-type view and nothing under the right
/// type's view, and symmetrically for rows from the right side: no value
/// crosses between the constituent types.
pub proof fn lemma_union_explode_roundtrip(
    l: crate::solution_mapping::SolutionMappings,
    r: crate::solution_mapping::SolutionMappings,
    out: crate::solution_mapping::SolutionMappings,
    n: Seq<char>,
)
    requires
        l.wf(),
        r.wf(),
        l.has_col(n),
        r.has_col(n),
        !(l.type_at(n) matches RDFNodeType::MultiType(_)),
        !(r.type_at(n) matches RDFNodeType::MultiType(_)),
        !base_same(base_of_type(l.type_at(n)), base_of_type(r.type_at(n))),
        forall|i: int|
            0 <= i < l.height() ==> #[trigger] out.cell_at(i, n) == l.cell_at(i, n),
        forall|i: int|
            l.height() <= i < l.height() + r.height() ==> #[trigger] out.cell_at(i, n)
                == r.cell_at(i - l.height(), n),
    ensures
        forall|i: int|
            0 <= i < l.height() ==> explode_cell(
                #[trigger] out.cell_at(i, n),
                base_of_type(l.type_at(n)),
            ) == l.cell_at(i, n),
        forall|i: int|
            0 <= i < l.height() ==> explode_cell(
                #[trigger] out.cell_at(i, n),
                base_of_type(r.type_at(n)),
            ) matches Option::None,
        forall|i: int|
            l.height() <= i < l.height() + r.height() ==> explode_cell(
                #[trigger] out.cell_at(i, n),
                base_of_type(r.type_at(n)),
            ) == r.cell_at(i - l.height(), n),
        forall|i: int|
            l.height() <= i < l.height() + r.height() ==> explode_cell(
                #[trigger] out.cell_at(i, n),
                base_of_type(l.type_at(n)),
            ) matches Option::None,
{
    let lb = base_of_type(l.type_at(n));
    let rb = base_of_type(r.type_at(n));
    assert forall|i: int| 0 <= i < l.height() implies explode_cell(
        #[trigger] out.cell_at(i, n),
        lb,
    ) == l.cell_at(i, n) && (explode_cell(out.cell_at(i, n), rb) matches Option::None) by {
        l.lemma_col_index(n);
        lemma_cell_base(l, i, n);
        match l.cell_at(i, n) {
            Option::Some(t) => {
                assert(base_same(base_of(t), lb));
                lemma_base_same_not(base_of(t), lb, rb);
            },
            Option::None => {},
        }
    }
    assert forall|i: int| l.height() <= i < l.height() + r.height() implies explode_cell(
        #[trigger] out.cell_at(i, n),
        rb,
    ) == r.cell_at(i - l.height(), n) && (explode_cell(out.cell_at(i, n), lb) matches Option::None)
        by {
        r.lemma_col_index(n);
        lemma_cell_base(r, i - l.height(), n);
        match r.cell_at(i - l.height(), n) {
            Option::Some(t) => {
                assert(base_same(base_of(t), rb));
                lemma_base_same_not(base_of(t), rb, lb);
            },
            Option::None => {},
        }
    }
}

/// A bound cell of a single-typed column carries that concrete type.
proof fn lemma_cell_base(sm: crate::solution_mapping::SolutionMappings, i: int, n: Seq<char>)
    requires
        sm.wf(),
        sm.has_col(n),
        0 <= i < sm.height(),
        !(sm.type_at(n) matches RDFNodeType::MultiType(_)),
    ensures
        sm.cell_at(i, n) matches Option::Some(t) ==> base_same(
            base_of(t),
            base_of_type(sm.type_at(n)),
        ),
{
    sm.lemma_col_index(n);
    let j = sm.col_index(n);
    assert(crate::terms::cell_fits(sm.rows@[i]@[j], sm.types@[j]));
    match sm.cell_at(i, n) {
        Option::Some(t) => {
            match sm.type_at(n) {
                RDFNodeType::Literal(dt) => {
                    assert(base_same(base_of(t), BaseRDFNodeType::Literal(dt)));
                },
                _ => {},
            }
        },
        Option::None => {},
    }
}

proof fn lemma_base_same_not(a: BaseRDFNodeType, b: BaseRDFNodeType, c: BaseRDFNodeType)
    requires
        base_same(a, b),
        !base_same(b, c),
    ensures
        !base_same(a, c),
{
}

} // verus!
