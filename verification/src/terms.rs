use vstd::prelude::*;
use crate::text::{seq_char_lt, str_eq, str_lt, lemma_seq_char_lt_trichotomy,
    lemma_seq_char_lt_transitive};

verus! {

// ---------------------------------------------------------------------------
// XSD datatype identifiers
// ---------------------------------------------------------------------------

pub open spec fn xsd_boolean_iri() -> Seq<char> {
    "http://www.w3.org/2001/XMLSchema#boolean"@
}

pub open spec fn xsd_int_iri() -> Seq<char> {
    "http://www.w3.org/2001/XMLSchema#int"@
}

pub open spec fn xsd_long_iri() -> Seq<char> {
    "http://www.w3.org/2001/XMLSchema#long"@
}

pub open spec fn xsd_integer_iri() -> Seq<char> {
    "http://www.w3.org/2001/XMLSchema#integer"@
}

pub open spec fn xsd_byte_iri() -> Seq<char> {
    "http://www.w3.org/2001/XMLSchema#byte"@
}

pub open spec fn xsd_short_iri() -> Seq<char> {
    "http://www.w3.org/2001/XMLSchema#short"@
}

pub open spec fn xsd_unsigned_int_iri() -> Seq<char> {
    "http://www.w3.org/2001/XMLSchema#unsignedInt"@
}

pub open spec fn xsd_unsigned_long_iri() -> Seq<char> {
    "http://www.w3.org/2001/XMLSchema#unsignedLong"@
}

pub open spec fn xsd_unsigned_byte_iri() -> Seq<char> {
    "http://www.w3.org/2001/XMLSchema#unsignedByte"@
}

pub open spec fn xsd_unsigned_short_iri() -> Seq<char> {
    "http://www.w3.org/2001/XMLSchema#unsignedShort"@
}

pub open spec fn xsd_double_iri() -> Seq<char> {
    "http://www.w3.org/2001/XMLSchema#double"@
}

pub open spec fn xsd_float_iri() -> Seq<char> {
    "http://www.w3.org/2001/XMLSchema#float"@
}

pub open spec fn xsd_decimal_iri() -> Seq<char> {
    "http://www.w3.org/2001/XMLSchema#decimal"@
}

pub open spec fn xsd_string_iri() -> Seq<char> {
    "http://www.w3.org/2001/XMLSchema#string"@
}

pub open spec fn xsd_date_time_iri() -> Seq<char> {
    "http://www.w3.org/2001/XMLSchema#dateTime"@
}

pub open spec fn xsd_date_time_stamp_iri() -> Seq<char> {
    "http://www.w3.org/2001/XMLSchema#dateTimeStamp"@
}

pub fn xsd_boolean() -> (s: String)
    ensures
        s@ == xsd_boolean_iri(),
{
    String::from_str("http://www.w3.org/2001/XMLSchema#boolean")
}

pub fn xsd_integer() -> (s: String)
    ensures
        s@ == xsd_integer_iri(),
{
    String::from_str("http://www.w3.org/2001/XMLSchema#integer")
}

pub fn xsd_double() -> (s: String)
    ensures
        s@ == xsd_double_iri(),
{
    String::from_str("http://www.w3.org/2001/XMLSchema#double")
}

pub fn xsd_string() -> (s: String)
    ensures
        s@ == xsd_string_iri(),
{
    String::from_str("http://www.w3.org/2001/XMLSchema#string")
}

pub fn xsd_date_time() -> (s: String)
    ensures
        s@ == xsd_date_time_iri(),
{
    String::from_str("http://www.w3.org/2001/XMLSchema#dateTime")
}

pub fn xsd_unsigned_int() -> (s: String)
    ensures
        s@ == xsd_unsigned_int_iri(),
{
    String::from_str("http://www.w3.org/2001/XMLSchema#unsignedInt")
}

// ---------------------------------------------------------------------------
// Datatype families
// ---------------------------------------------------------------------------

pub open spec fn is_boolean_datatype(dt: Seq<char>) -> bool {
    dt == xsd_boolean_iri()
}

pub open spec fn is_integer_datatype(dt: Seq<char>) -> bool {
    ||| dt == xsd_int_iri()
    ||| dt == xsd_long_iri()
    ||| dt == xsd_integer_iri()
    ||| dt == xsd_byte_iri()
    ||| dt == xsd_short_iri()
    ||| dt == xsd_unsigned_int_iri()
    ||| dt == xsd_unsigned_long_iri()
    ||| dt == xsd_unsigned_byte_iri()
    ||| dt == xsd_unsigned_short_iri()
}

pub open spec fn is_float_datatype(dt: Seq<char>) -> bool {
    ||| dt == xsd_double_iri()
    ||| dt == xsd_float_iri()
    ||| dt == xsd_decimal_iri()
}

pub open spec fn is_numeric_datatype(dt: Seq<char>) -> bool {
    is_integer_datatype(dt) || is_float_datatype(dt)
}

pub open spec fn is_string_datatype(dt: Seq<char>) -> bool {
    dt == xsd_string_iri()
}

pub open spec fn is_datetime_datatype(dt: Seq<char>) -> bool {
    dt == xsd_date_time_iri() || dt == xsd_date_time_stamp_iri()
}

fn eq_lit(s: &String, l: &str) -> (r: bool)
    ensures
        r == (s@ == l@),
{
    let ls = String::from_str(l);
    str_eq(s, &ls)
}

/// Whether `dt` names the boolean datatype.
pub fn literal_is_boolean(dt: &String) -> (r: bool)
    ensures
        r == is_boolean_datatype(dt@),
{
    eq_lit(dt, "http://www.w3.org/2001/XMLSchema#boolean")
}

/// Whether `dt` names a datatype of the integer family.
pub fn literal_is_integer(dt: &String) -> (r: bool)
    ensures
        r == is_integer_datatype(dt@),
{
    eq_lit(dt, "http://www.w3.org/2001/XMLSchema#int")
        || eq_lit(dt, "http://www.w3.org/2001/XMLSchema#long")
        || eq_lit(dt, "http://www.w3.org/2001/XMLSchema#integer")
        || eq_lit(dt, "http://www.w3.org/2001/XMLSchema#byte")
        || eq_lit(dt, "http://www.w3.org/2001/XMLSchema#short")
        || eq_lit(dt, "http://www.w3.org/2001/XMLSchema#unsignedInt")
        || eq_lit(dt, "http://www.w3.org/2001/XMLSchema#unsignedLong")
        || eq_lit(dt, "http://www.w3.org/2001/XMLSchema#unsignedByte")
        || eq_lit(dt, "http://www.w3.org/2001/XMLSchema#unsignedShort")
}

/// Whether `dt` names a floating or decimal datatype.
pub fn literal_is_float(dt: &String) -> (r: bool)
    ensures
        r == is_float_datatype(dt@),
{
    eq_lit(dt, "http://www.w3.org/2001/XMLSchema#double")
        || eq_lit(dt, "http://www.w3.org/2001/XMLSchema#float")
        || eq_lit(dt, "http://www.w3.org/2001/XMLSchema#decimal")
}

/// Whether `dt` names a numeric datatype.
pub fn literal_is_numeric(dt: &String) -> (r: bool)
    ensures
        r == is_numeric_datatype(dt@),
{
    literal_is_integer(dt) || literal_is_float(dt)
}

/// Whether `dt` names the string datatype.
pub fn literal_is_string(dt: &String) -> (r: bool)
    ensures
        r == is_string_datatype(dt@),
{
    eq_lit(dt, "http://www.w3.org/2001/XMLSchema#string")
}

/// Whether `dt` names a datetime datatype.
pub fn literal_is_datetime(dt: &String) -> (r: bool)
    ensures
        r == is_datetime_datatype(dt@),
{
    eq_lit(dt, "http://www.w3.org/2001/XMLSchema#dateTime")
        || eq_lit(dt, "http://www.w3.org/2001/XMLSchema#dateTimeStamp")
}

// ---------------------------------------------------------------------------
// The RDF term type lattice
// ---------------------------------------------------------------------------

/// A single concrete RDF term type: an IRI, a blank node, or a literal of a
/// fixed datatype (named by the datatype's IRI).
pub enum BaseRDFNodeType {
    IRI,
    BlankNode,
    Literal(String),
}

/// The recorded type of one column: a single concrete type, or a
/// `MultiType` of at least two distinct concrete types, kept sorted.
pub enum RDFNodeType {
    IRI,
    BlankNode,
    Literal(String),
    MultiType(Vec<BaseRDFNodeType>),
}

/// Value equality on concrete types: datatype IRIs compare by contents.
pub open spec fn base_same(a: BaseRDFNodeType, b: BaseRDFNodeType) -> bool {
    match (a, b) {
        (BaseRDFNodeType::IRI, BaseRDFNodeType::IRI) => true,
        (BaseRDFNodeType::BlankNode, BaseRDFNodeType::BlankNode) => true,
        (BaseRDFNodeType::Literal(x), BaseRDFNodeType::Literal(y)) => x@ == y@,
        _ => false,
    }
}

/// The canonical sort key: IRI before blank node before literals, literals
/// ordered by their datatype IRI.
pub open spec fn base_rank(a: BaseRDFNodeType) -> int {
    match a {
        BaseRDFNodeType::IRI => 0,
        BaseRDFNodeType::BlankNode => 1,
        BaseRDFNodeType::Literal(_) => 2,
    }
}

/// Strict canonical order on concrete types.
pub open spec fn base_lt(a: BaseRDFNodeType, b: BaseRDFNodeType) -> bool {
    match (a, b) {
        (BaseRDFNodeType::Literal(x), BaseRDFNodeType::Literal(y)) => seq_char_lt(x@, y@),
        _ => base_rank(a) < base_rank(b),
    }
}

pub proof fn lemma_base_lt_trichotomy(a: BaseRDFNodeType, b: BaseRDFNodeType)
    ensures
        base_lt(a, b) || base_lt(b, a) || base_same(a, b),
        base_lt(a, b) ==> !base_lt(b, a) && !base_same(a, b),
{
    match (a, b) {
        (BaseRDFNodeType::Literal(x), BaseRDFNodeType::Literal(y)) => {
            lemma_seq_char_lt_trichotomy(x@, y@);
        },
        _ => {},
    }
}

pub proof fn lemma_base_lt_transitive(a: BaseRDFNodeType, b: BaseRDFNodeType, c: BaseRDFNodeType)
    requires
        base_lt(a, b),
        base_lt(b, c),
    ensures
        base_lt(a, c),
{
    match (a, c) {
        (BaseRDFNodeType::Literal(x), BaseRDFNodeType::Literal(z)) => {
            match b {
                BaseRDFNodeType::Literal(y) => {
                    lemma_seq_char_lt_transitive(x@, y@, z@);
                },
                _ => {},
            }
        },
        _ => {},
    }
}

impl Clone for BaseRDFNodeType {
    fn clone(&self) -> (r: BaseRDFNodeType)
        ensures
            r == *self,
    {
        match self {
            BaseRDFNodeType::IRI => BaseRDFNodeType::IRI,
            BaseRDFNodeType::BlankNode => BaseRDFNodeType::BlankNode,
            BaseRDFNodeType::Literal(s) => BaseRDFNodeType::Literal(s.clone()),
        }
    }
}

/// Equality test reflecting `base_same`.
pub fn base_eq(a: &BaseRDFNodeType, b: &BaseRDFNodeType) -> (r: bool)
    ensures
        r == base_same(*a, *b),
{
    match (a, b) {
        (BaseRDFNodeType::IRI, BaseRDFNodeType::IRI) => true,
        (BaseRDFNodeType::BlankNode, BaseRDFNodeType::BlankNode) => true,
        (BaseRDFNodeType::Literal(x), BaseRDFNodeType::Literal(y)) => str_eq(x, y),
        _ => false,
    }
}

/// Comparison reflecting the canonical order `base_lt`.
pub fn base_less(a: &BaseRDFNodeType, b: &BaseRDFNodeType) -> (r: bool)
    ensures
        r == base_lt(*a, *b),
{
    match (a, b) {
        (BaseRDFNodeType::Literal(x), BaseRDFNodeType::Literal(y)) => {
            str_lt(x.as_str(), y.as_str())
        },
        (BaseRDFNodeType::IRI, BaseRDFNodeType::IRI) => false,
        (BaseRDFNodeType::IRI, _) => true,
        (BaseRDFNodeType::BlankNode, BaseRDFNodeType::Literal(_)) => true,
        (BaseRDFNodeType::BlankNode, _) => false,
        (BaseRDFNodeType::Literal(_), _) => false,
    }
}

/// A strictly increasing (hence duplicate-free) sequence of concrete types.
pub open spec fn base_seq_sorted(s: Seq<BaseRDFNodeType>) -> bool {
    forall|i: int, j: int| 0 <= i < j < s.len() ==> base_lt(s[i], s[j])
}

/// `b` occurs in `s`, by value.
pub open spec fn base_in_seq(b: BaseRDFNodeType, s: Seq<BaseRDFNodeType>) -> bool {
    exists|i: int| 0 <= i < s.len() && base_same(s[i], b)
}

/// Value equality on column types.
pub open spec fn type_same(a: RDFNodeType, b: RDFNodeType) -> bool {
    match (a, b) {
        (RDFNodeType::IRI, RDFNodeType::IRI) => true,
        (RDFNodeType::BlankNode, RDFNodeType::BlankNode) => true,
        (RDFNodeType::Literal(x), RDFNodeType::Literal(y)) => x@ == y@,
        (RDFNodeType::MultiType(x), RDFNodeType::MultiType(y)) => {
            x@.len() == y@.len() && forall|i: int|
                0 <= i < x@.len() ==> base_same(x@[i], y@[i])
        },
        _ => false,
    }
}

/// Well-formedness of a recorded column type: a `MultiType` holds at least
/// two concrete types, in strictly increasing canonical order.
pub open spec fn type_wf(t: RDFNodeType) -> bool {
    match t {
        RDFNodeType::MultiType(v) => v@.len() >= 2 && base_seq_sorted(v@),
        _ => true,
    }
}

/// The set of concrete types a value of recorded type `t` may have.
pub open spec fn base_in_type(b: BaseRDFNodeType, t: RDFNodeType) -> bool {
    match t {
        RDFNodeType::IRI => b matches BaseRDFNodeType::IRI,
        RDFNodeType::BlankNode => b matches BaseRDFNodeType::BlankNode,
        RDFNodeType::Literal(dt) => base_same(b, BaseRDFNodeType::Literal(dt)),
        RDFNodeType::MultiType(v) => base_in_seq(b, v@),
    }
}

/// What cloning a column type preserves: everything, except that the
/// vector inside a `MultiType` is a fresh vector with equal contents.
pub open spec fn type_clone_ok(r: RDFNodeType, s: RDFNodeType) -> bool {
    match (r, s) {
        (RDFNodeType::MultiType(w), RDFNodeType::MultiType(v)) => w@ == v@,
        _ => r == s,
    }
}

impl Clone for RDFNodeType {
    fn clone(&self) -> (r: RDFNodeType)
        ensures
            type_clone_ok(r, *self),
    {
        match self {
            RDFNodeType::IRI => RDFNodeType::IRI,
            RDFNodeType::BlankNode => RDFNodeType::BlankNode,
            RDFNodeType::Literal(s) => RDFNodeType::Literal(s.clone()),
            RDFNodeType::MultiType(v) => {
                let mut out: Vec<BaseRDFNodeType> = Vec::new();
                let mut i: usize = 0;
                while i < v.len()
                    invariant
                        0 <= i <= v.len(),
                        out@.len() == i,
                        forall|k: int| 0 <= k < i ==> out@[k] == v@[k],
                    decreases v.len() - i,
                {
                    out.push(v[i].clone());
                    i = i + 1;
                }
                proof {
                    assert(out@ =~= v@);
                }
                RDFNodeType::MultiType(out)
            },
        }
    }
}

/// Equality test reflecting `type_same`.
pub fn type_eq(a: &RDFNodeType, b: &RDFNodeType) -> (r: bool)
    ensures
        r == type_same(*a, *b),
{
    match (a, b) {
        (RDFNodeType::IRI, RDFNodeType::IRI) => true,
        (RDFNodeType::BlankNode, RDFNodeType::BlankNode) => true,
        (RDFNodeType::Literal(x), RDFNodeType::Literal(y)) => str_eq(x, y),
        (RDFNodeType::MultiType(x), RDFNodeType::MultiType(y)) => {
            if x.len() != y.len() {
                return false;
            }
            let mut i: usize = 0;
            while i < x.len()
                invariant
                    0 <= i <= x@.len(),
                    x@.len() == y@.len(),
                    *a == RDFNodeType::MultiType(*x),
                    *b == RDFNodeType::MultiType(*y),
                    forall|k: int| 0 <= k < i ==> base_same(x@[k], y@[k]),
                decreases x@.len() - i,
            {
                if !base_eq(&x[i], &y[i]) {
                    proof {
                        assert(!base_same(x@[i as int], y@[i as int]));
                        assert(!type_same(*a, *b));
                    }
                    return false;
                }
                i = i + 1;
            }
            true
        },
        _ => false,
    }
}

/// The single concrete type of a non-multi recorded type.
pub open spec fn base_of_type(t: RDFNodeType) -> BaseRDFNodeType
    recommends
        !(t matches RDFNodeType::MultiType(_)),
{
    match t {
        RDFNodeType::IRI => BaseRDFNodeType::IRI,
        RDFNodeType::BlankNode => BaseRDFNodeType::BlankNode,
        RDFNodeType::Literal(dt) => BaseRDFNodeType::Literal(dt),
        RDFNodeType::MultiType(_) => BaseRDFNodeType::IRI,
    }
}

/// Extracts the concrete type of a non-multi recorded type.
pub fn from_rdf_node_type(t: &RDFNodeType) -> (r: BaseRDFNodeType)
    requires
        !(t matches RDFNodeType::MultiType(_)),
    ensures
        r == base_of_type(*t),
{
    match t {
        RDFNodeType::IRI => BaseRDFNodeType::IRI,
        RDFNodeType::BlankNode => BaseRDFNodeType::BlankNode,
        RDFNodeType::Literal(dt) => BaseRDFNodeType::Literal(dt.clone()),
        RDFNodeType::MultiType(_) => BaseRDFNodeType::IRI,
    }
}

// ---------------------------------------------------------------------------
// Term values
// ---------------------------------------------------------------------------

/// The physical value of one literal cell.  Doubles, floats and decimals
/// are carried as exact fractions (numerator, positive denominator);
/// datetimes as milliseconds since the epoch.
pub enum LitValue {
    B(bool),
    I(i64),
    F(i64, i64),
    S(String),
    D(i64),
}

/// One bound RDF term: the atomic value of a cell.
pub enum Term {
    Iri(String),
    Blank(String),
    Lit(String, LitValue),
}

/// The mathematical value of a literal cell.
pub enum LitV {
    B(bool),
    I(int),
    F(int, int),
    S(Seq<char>),
    D(int),
}

/// The mathematical value of a term.
pub enum TermV {
    Iri(Seq<char>),
    Blank(Seq<char>),
    Lit(Seq<char>, LitV),
}

/// The mathematical value of a literal value.
pub open spec fn lit_v(v: LitValue) -> LitV {
    match v {
        LitValue::B(x) => LitV::B(x),
        LitValue::I(x) => LitV::I(x as int),
        LitValue::F(n, d) => LitV::F(n as int, d as int),
        LitValue::S(s) => LitV::S(s@),
        LitValue::D(x) => LitV::D(x as int),
    }
}

/// The mathematical value of a term.
pub open spec fn term_v(t: Term) -> TermV {
    match t {
        Term::Iri(s) => TermV::Iri(s@),
        Term::Blank(s) => TermV::Blank(s@),
        Term::Lit(dt, v) => TermV::Lit(dt@, lit_v(v)),
    }
}

/// The mathematical value of a cell.
pub open spec fn cell_v(c: Option<Term>) -> Option<TermV> {
    match c {
        Option::None => Option::None,
        Option::Some(t) => Option::Some(term_v(t)),
    }
}

/// Value equality on mathematical literal values; fractions compare as
/// rationals.
pub open spec fn lit_v_same(a: LitV, b: LitV) -> bool {
    match (a, b) {
        (LitV::B(x), LitV::B(y)) => x == y,
        (LitV::I(x), LitV::I(y)) => x == y,
        (LitV::F(n1, d1), LitV::F(n2, d2)) => n1 * d2 == n2 * d1,
        (LitV::S(x), LitV::S(y)) => x == y,
        (LitV::D(x), LitV::D(y)) => x == y,
        _ => false,
    }
}

/// Value equality on mathematical terms: same kind, same datatype, same
/// value.
pub open spec fn term_v_same(a: TermV, b: TermV) -> bool {
    match (a, b) {
        (TermV::Iri(x), TermV::Iri(y)) => x == y,
        (TermV::Blank(x), TermV::Blank(y)) => x == y,
        (TermV::Lit(d1, v1), TermV::Lit(d2, v2)) => d1 == d2 && lit_v_same(v1, v2),
        _ => false,
    }
}

/// Value equality on mathematical cells.
pub open spec fn cell_v_same(a: Option<TermV>, b: Option<TermV>) -> bool {
    match (a, b) {
        (Option::None, Option::None) => true,
        (Option::Some(x), Option::Some(y)) => term_v_same(x, y),
        _ => false,
    }
}

/// Value equality on literal values; fractions compare as rationals.
pub open spec fn lit_val_same(a: LitValue, b: LitValue) -> bool {
    lit_v_same(lit_v(a), lit_v(b))
}

/// Value equality on terms: same kind, same datatype, same value.
pub open spec fn term_same(a: Term, b: Term) -> bool {
    term_v_same(term_v(a), term_v(b))
}

/// Value equality on cells; an unbound cell equals only an unbound cell.
pub open spec fn cell_same(a: Option<Term>, b: Option<Term>) -> bool {
    match (a, b) {
        (Option::None, Option::None) => true,
        (Option::Some(x), Option::Some(y)) => term_same(x, y),
        _ => false,
    }
}

/// The concrete type of a term.
pub open spec fn base_of(t: Term) -> BaseRDFNodeType {
    match t {
        Term::Iri(_) => BaseRDFNodeType::IRI,
        Term::Blank(_) => BaseRDFNodeType::BlankNode,
        Term::Lit(dt, _) => BaseRDFNodeType::Literal(dt),
    }
}

/// The physical value fits the families of its datatype.
pub open spec fn lit_value_fits(dt: Seq<char>, v: LitValue) -> bool {
    match v {
        LitValue::B(_) => is_boolean_datatype(dt),
        LitValue::I(_) => is_integer_datatype(dt),
        LitValue::F(_, d) => is_float_datatype(dt) && d > 0,
        LitValue::D(_) => is_datetime_datatype(dt),
        LitValue::S(_) => !is_boolean_datatype(dt) && !is_integer_datatype(dt)
            && !is_float_datatype(dt) && !is_datetime_datatype(dt),
    }
}

/// Well-formedness of a term.
pub open spec fn term_wf(t: Term) -> bool {
    match t {
        Term::Lit(dt, v) => lit_value_fits(dt@, v),
        _ => true,
    }
}

/// A bound cell is well formed and its concrete type belongs to the
/// column's recorded type; an unbound cell always fits.
pub open spec fn cell_fits(c: Option<Term>, t: RDFNodeType) -> bool {
    match c {
        Option::None => true,
        Option::Some(tm) => term_wf(tm) && base_in_type(base_of(tm), t),
    }
}

pub proof fn lemma_mul_i64_in_i128(a: int, b: int)
    requires
        -0x8000_0000_0000_0000 <= a < 0x8000_0000_0000_0000,
        -0x8000_0000_0000_0000 <= b < 0x8000_0000_0000_0000,
    ensures
        -0x4000_0000_0000_0000_0000_0000_0000_0000 <= a * b
            <= 0x4000_0000_0000_0000_0000_0000_0000_0000,
{
    assert(-0x4000_0000_0000_0000_0000_0000_0000_0000 <= a * b
        <= 0x4000_0000_0000_0000_0000_0000_0000_0000) by (nonlinear_arith)
        requires
            -0x8000_0000_0000_0000 <= a < 0x8000_0000_0000_0000,
            -0x8000_0000_0000_0000 <= b < 0x8000_0000_0000_0000,
    ;
}

/// Multiplies two 64-bit values exactly.
pub fn mul_i64(a: i64, b: i64) -> (r: i128)
    ensures
        r as int == (a as int) * (b as int),
{
    proof {
        lemma_mul_i64_in_i128(a as int, b as int);
    }
    (a as i128) * (b as i128)
}

impl Clone for LitValue {
    fn clone(&self) -> (r: LitValue)
        ensures
            r == *self,
    {
        match self {
            LitValue::B(x) => LitValue::B(*x),
            LitValue::I(x) => LitValue::I(*x),
            LitValue::F(n, d) => LitValue::F(*n, *d),
            LitValue::S(s) => LitValue::S(s.clone()),
            LitValue::D(x) => LitValue::D(*x),
        }
    }
}

impl Clone for Term {
    fn clone(&self) -> (r: Term)
        ensures
            r == *self,
    {
        match self {
            Term::Iri(s) => Term::Iri(s.clone()),
            Term::Blank(s) => Term::Blank(s.clone()),
            Term::Lit(dt, v) => Term::Lit(dt.clone(), v.clone()),
        }
    }
}

/// The string datatype belongs to none of the boolean, integer, float or
/// datetime families.
pub proof fn lemma_xsd_string_distinct()
    ensures
        !is_boolean_datatype(xsd_string_iri()),
        !is_integer_datatype(xsd_string_iri()),
        !is_float_datatype(xsd_string_iri()),
        !is_datetime_datatype(xsd_string_iri()),
{
    reveal_strlit("http://www.w3.org/2001/XMLSchema#string");
    reveal_strlit("http://www.w3.org/2001/XMLSchema#boolean");
    reveal_strlit("http://www.w3.org/2001/XMLSchema#int");
    reveal_strlit("http://www.w3.org/2001/XMLSchema#long");
    reveal_strlit("http://www.w3.org/2001/XMLSchema#integer");
    reveal_strlit("http://www.w3.org/2001/XMLSchema#byte");
    reveal_strlit("http://www.w3.org/2001/XMLSchema#short");
    reveal_strlit("http://www.w3.org/2001/XMLSchema#unsignedInt");
    reveal_strlit("http://www.w3.org/2001/XMLSchema#unsignedLong");
    reveal_strlit("http://www.w3.org/2001/XMLSchema#unsignedByte");
    reveal_strlit("http://www.w3.org/2001/XMLSchema#unsignedShort");
    reveal_strlit("http://www.w3.org/2001/XMLSchema#double");
    reveal_strlit("http://www.w3.org/2001/XMLSchema#float");
    reveal_strlit("http://www.w3.org/2001/XMLSchema#decimal");
    reveal_strlit("http://www.w3.org/2001/XMLSchema#dateTime");
    reveal_strlit("http://www.w3.org/2001/XMLSchema#dateTimeStamp");
    assert(xsd_string_iri().len() == 39);
    assert(xsd_boolean_iri().len() == 40);
    assert(xsd_int_iri().len() == 36);
    assert(xsd_long_iri().len() == 37);
    assert(xsd_integer_iri().len() == 40);
    assert(xsd_byte_iri().len() == 37);
    assert(xsd_short_iri().len() == 38);
    assert(xsd_unsigned_int_iri().len() == 44);
    assert(xsd_unsigned_long_iri().len() == 45);
    assert(xsd_unsigned_byte_iri().len() == 45);
    assert(xsd_unsigned_short_iri().len() == 46);
    assert(xsd_double_iri().len() == 39);
    assert(xsd_float_iri().len() == 38);
    assert(xsd_decimal_iri().len() == 40);
    assert(xsd_date_time_iri().len() == 41);
    assert(xsd_date_time_stamp_iri().len() == 46);
    assert(xsd_string_iri() != xsd_double_iri()) by {
        assert(xsd_string_iri()[33] == 's');
        assert(xsd_double_iri()[33] == 'd');
    }
}

/// The datatype/value-family consistency of a mathematical term.
pub open spec fn lit_v_fits(dt: Seq<char>, v: LitV) -> bool {
    match v {
        LitV::B(_) => is_boolean_datatype(dt),
        LitV::I(_) => is_integer_datatype(dt),
        LitV::F(_, d) => is_float_datatype(dt) && d > 0,
        LitV::D(_) => is_datetime_datatype(dt),
        LitV::S(_) => !is_boolean_datatype(dt) && !is_integer_datatype(dt) && !is_float_datatype(
            dt,
        ) && !is_datetime_datatype(dt),
    }
}

/// Well-formedness of a mathematical term.
pub open spec fn term_v_wf(tv: TermV) -> bool {
    match tv {
        TermV::Lit(dt, v) => lit_v_fits(dt, v) && fits_lit_ranges(v),
        _ => true,
    }
}

/// The numeric payloads of a mathematical literal lie in 64-bit ranges.
pub open spec fn fits_lit_ranges(v: LitV) -> bool {
    match v {
        LitV::I(n) => -0x8000_0000_0000_0000 <= n <= 0x7fff_ffff_ffff_ffff,
        LitV::F(n, d) => -0x8000_0000_0000_0000 <= n <= 0x7fff_ffff_ffff_ffff && d
            <= 0x7fff_ffff_ffff_ffff,
        LitV::D(n) => -0x8000_0000_0000_0000 <= n <= 0x7fff_ffff_ffff_ffff,
        _ => true,
    }
}

/// A concrete type matches the kind and datatype of a mathematical term.
pub open spec fn base_matches_tv(b: BaseRDFNodeType, tv: TermV) -> bool {
    match (b, tv) {
        (BaseRDFNodeType::IRI, TermV::Iri(_)) => true,
        (BaseRDFNodeType::BlankNode, TermV::Blank(_)) => true,
        (BaseRDFNodeType::Literal(s), TermV::Lit(dt, _)) => s@ == dt,
        _ => false,
    }
}

/// The recorded type admits a value of the mathematical term's concrete
/// type.
pub open spec fn tv_in_type(tv: TermV, t: RDFNodeType) -> bool {
    match t {
        RDFNodeType::IRI => tv matches TermV::Iri(_),
        RDFNodeType::BlankNode => tv matches TermV::Blank(_),
        RDFNodeType::Literal(s) => tv matches TermV::Lit(dt, _) && dt == s@,
        RDFNodeType::MultiType(v) => exists|i: int| 0 <= i < v@.len() && base_matches_tv(
            v@[i],
            tv,
        ),
    }
}

/// A bound cell fits a recorded type exactly when its mathematical value
/// is well formed and its concrete type is admitted.
pub proof fn lemma_cell_fits_v(t: Term, typ: RDFNodeType)
    ensures
        cell_fits(Option::Some(t), typ) <==> (term_v_wf(term_v(t)) && tv_in_type(term_v(t), typ)),
{
    match typ {
        RDFNodeType::MultiType(v) => {
            if base_in_seq(base_of(t), v@) {
                let i = choose|i: int| 0 <= i < v@.len() && base_same(v@[i], base_of(t));
                assert(base_matches_tv(v@[i], term_v(t)));
            }
            if tv_in_type(term_v(t), typ) {
                let i = choose|i: int| 0 <= i < v@.len() && base_matches_tv(v@[i], term_v(t));
                assert(base_same(v@[i], base_of(t)));
            }
        },
        _ => {},
    }
}

/// Coerces a computed cell to a recorded type: a value whose concrete
/// type the recorded type does not admit becomes unbound.
pub open spec fn coerce_v(c: Option<TermV>, t: RDFNodeType) -> Option<TermV> {
    match c {
        Option::Some(tv) => {
            if term_v_wf(tv) && tv_in_type(tv, t) {
                Option::Some(tv)
            } else {
                Option::None
            }
        },
        Option::None => Option::None,
    }
}

/// A clone of a recorded type admits exactly the same mathematical terms.
pub proof fn lemma_tv_in_type_clone(tv: TermV, t1: RDFNodeType, t2: RDFNodeType)
    requires
        type_clone_ok(t2, t1),
    ensures
        tv_in_type(tv, t1) == tv_in_type(tv, t2),
{
}

/// A clone of a recorded type admits exactly the same cells.
pub proof fn lemma_type_clone_fits(c: Option<Term>, t1: RDFNodeType, t2: RDFNodeType)
    requires
        cell_fits(c, t1),
        type_clone_ok(t2, t1),
    ensures
        cell_fits(c, t2),
{
}

/// A clone of a well-formed recorded type is well formed.
pub proof fn lemma_type_clone_wf(t1: RDFNodeType, t2: RDFNodeType)
    requires
        type_wf(t1),
        type_clone_ok(t2, t1),
    ensures
        type_wf(t2),
{
}

/// Clones a cell.
pub fn clone_cell(c: &Option<Term>) -> (r: Option<Term>)
    ensures
        r == *c,
{
    match c {
        Option::None => Option::None,
        Option::Some(t) => Option::Some(t.clone()),
    }
}

/// Equality test on literal values reflecting `lit_val_same`.
pub fn lit_val_eq(a: &LitValue, b: &LitValue) -> (r: bool)
    ensures
        r == lit_val_same(*a, *b),
{
    match (a, b) {
        (LitValue::B(x), LitValue::B(y)) => *x == *y,
        (LitValue::I(x), LitValue::I(y)) => *x == *y,
        (LitValue::F(n1, d1), LitValue::F(n2, d2)) => {
            let p1: i128 = mul_i64(*n1, *d2);
            let p2: i128 = mul_i64(*n2, *d1);
            p1 == p2
        },
        (LitValue::S(x), LitValue::S(y)) => str_eq(x, y),
        (LitValue::D(x), LitValue::D(y)) => *x == *y,
        _ => false,
    }
}

/// Equality test on terms reflecting `term_same`.
pub fn term_eq(a: &Term, b: &Term) -> (r: bool)
    ensures
        r == term_same(*a, *b),
{
    match (a, b) {
        (Term::Iri(x), Term::Iri(y)) => str_eq(x, y),
        (Term::Blank(x), Term::Blank(y)) => str_eq(x, y),
        (Term::Lit(d1, v1), Term::Lit(d2, v2)) => str_eq(d1, d2) && lit_val_eq(v1, v2),
        _ => false,
    }
}

/// Equality test on cells reflecting `cell_same`.
pub fn cell_eq(a: &Option<Term>, b: &Option<Term>) -> (r: bool)
    ensures
        r == cell_same(*a, *b),
{
    match (a, b) {
        (Option::None, Option::None) => true,
        (Option::Some(x), Option::Some(y)) => term_eq(x, y),
        _ => false,
    }
}

} // verus!
